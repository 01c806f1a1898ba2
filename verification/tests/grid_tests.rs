use yin_yang_extractor::{Cell, Grid};

fn board(rows: &[&str]) -> Grid {
    let mut g = Grid::new(rows.len(), rows[0].len());
    for (r, row) in rows.iter().enumerate() {
        for (c, ch) in row.chars().enumerate() {
            let cell = match ch {
                'B' => Cell::Black,
                'W' => Cell::White,
                _ => Cell::Empty,
            };
            g.set(r, c, cell);
        }
    }
    g
}

#[test]
fn cell_is_empty_only_for_empty() {
    assert!(Cell::Empty.is_empty());
    assert!(!Cell::Black.is_empty());
    assert!(!Cell::White.is_empty());
}

#[test]
fn new_grid_is_all_empty() {
    let g = Grid::new(3, 4);
    assert_eq!(g.rows(), 3);
    assert_eq!(g.cols(), 4);
    for r in 0..3 {
        for c in 0..4 {
            assert_eq!(g.get(r, c), Cell::Empty);
        }
    }
}

#[test]
fn set_then_get_reads_back() {
    let mut g = Grid::new(2, 2);
    g.set(1, 0, Cell::Black);
    assert_eq!(g.get(1, 0), Cell::Black);
    assert_eq!(g.get(0, 0), Cell::Empty);
    assert_eq!(g.get(1, 1), Cell::Empty);
}

#[test]
fn to_string_writes_one_line_per_row() {
    let g = board(&["BW.", ".WB"]);
    assert_eq!(g.to_string(), "B W . \n. W B \n");
}

#[test]
fn empty_board_is_valid() {
    assert!(Grid::new(4, 4).is_valid());
}

#[test]
fn solid_black_block_is_invalid() {
    let g = board(&["BW.", "BBW", "BB."]);
    assert!(!g.is_valid());
}

#[test]
fn solid_white_block_is_invalid() {
    let g = board(&[".WW", "BWW"]);
    assert!(!g.is_valid());
}

#[test]
fn mixed_blocks_are_valid() {
    let g = board(&["BWB", "WBW", "BWB"]);
    assert!(g.is_valid());
}

#[test]
fn solid_block_in_last_corner_is_found() {
    let g = board(&["BW..", "WB..", "..WW", "..WW"]);
    assert!(!g.is_valid());
}

#[test]
fn single_column_board_of_two_rows_is_valid() {
    let g = board(&["B", "B"]);
    assert!(g.is_valid());
}

#[test]
fn single_row_board_is_valid() {
    let g = board(&["BBBB"]);
    assert!(g.is_valid());
}

#[test]
fn subgrids_walk_in_row_major_order() {
    let g = board(&["BW.", "WB.", "..W"]);
    let mut it = g.subgrids(2, 2);
    let mut seen = Vec::new();
    while let Some(s) = it.next() {
        seen.push((s.get(0, 0), s.get(1, 1)));
    }
    assert_eq!(
        seen,
        vec![
            (Cell::Black, Cell::Black),
            (Cell::White, Cell::Empty),
            (Cell::White, Cell::Empty),
            (Cell::Black, Cell::White),
        ]
    );
}

#[test]
fn subgrid_reads_relative_to_its_origin() {
    let g = board(&["BW.", "WB.", "..W"]);
    let s = g.subgrid(1, 1);
    assert_eq!(s.get(0, 0), Cell::Black);
    assert_eq!(s.get(1, 1), Cell::White);
    assert_eq!(s.get(0, 1), Cell::Empty);
}

#[test]
fn from_row_major_cuts_rows() {
    let cells = vec![Cell::Black, Cell::White, Cell::Empty, Cell::White, Cell::Black, Cell::Black];
    let g = Grid::from_row_major(&cells, 3);
    assert_eq!(g.rows(), 2);
    assert_eq!(g.cols(), 3);
    assert_eq!(g.get(0, 1), Cell::White);
    assert_eq!(g.get(1, 0), Cell::White);
    assert_eq!(g.get(1, 2), Cell::Black);
}

#[test]
fn one_cell_board() {
    let g = board(&["W"]);
    assert!(g.is_valid());
    assert_eq!(g.to_string(), "W \n");
    let h = g.clone();
    assert_eq!(h.get(0, 0), Cell::White);
}

#[test]
fn clone_is_independent() {
    let g = board(&["BW", "WB"]);
    let mut h = g.clone();
    h.set(0, 0, Cell::Empty);
    assert_eq!(g.get(0, 0), Cell::Black);
    assert_eq!(h.get(0, 0), Cell::Empty);
}

#[test]
fn ascii_board_separates_cells_by_spaces() {
    let g = board(&["BW.", ".WB"]);
    assert_eq!(g.ascii_board(), "B W .\n. W B\n");
    assert_eq!(board(&["W"]).ascii_board(), "W\n");
}

#[test]
fn window_walk_stays_finished() {
    let g = board(&["BW", "WB"]);
    let mut it = g.subgrids(2, 2);
    assert!(it.next().is_some());
    assert!(it.next().is_none());
    assert!(it.next().is_none());
    assert!(it.next().is_none());
}

#[test]
fn window_taller_than_any_board_finds_nothing() {
    let g = board(&["BW", "WB"]);
    let mut it = g.subgrids(usize::MAX, 1);
    assert!(it.next().is_none());
}

#[test]
fn window_wider_than_the_board_skips_to_later_rows() {
    let g = board(&["B", "W", "B", "W"]);
    let mut it = g.subgrids(1, 3);
    // each step wraps to the next row; the window at column 0 is yielded from row 1 on
    let mut rows_seen = 0;
    while let Some(s) = it.next() {
        let _ = s;
        rows_seen += 1;
    }
    assert_eq!(rows_seen, 3);
    assert!(it.next().is_none());
    assert!(it.next().is_none());
}
