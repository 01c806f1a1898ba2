use vstd::prelude::*;

use crate::error::{AnalyzeError, AnalyzeResult};
use crate::grid::{
    block_in_board, board_of, lemma_board_of_shape, lemma_no_solid_block_iff, no_solid_block, solid_block, well_shaped, Cell,
    Grid,
};

verus! {

/// The outcome of clustering the cells of a board image into three classes.
#[derive(Debug)]
pub struct AnalyzeCells {
    /// The number of cells in a row of the board.
    pub cols: usize,
    /// The class of each cell, in row-major order.
    pub cell_classes: Vec<usize>,
    /// For each class, an order key of its centroid's total luminance: a brighter centroid has a
    /// larger key.
    pub centroid_brightness: Vec<u32>,
}

/// The board read off an image.
#[derive(Debug)]
pub struct AnalyzePuzzle {
    pub grid: Grid,
    /// More than one choice of the empty class gave a valid board.
    pub ambiguous: bool,
}

/// Of the two colour classes `a` and `b`, the class shown in black and the class shown in
/// white: the brighter centroid is white, and `a` is black when the two are equally bright.
pub open spec fn colors(brightness: Seq<u32>, a: usize, b: usize) -> (usize, usize) {
    if brightness[a as int] > brightness[b as int] {
        (b, a)
    } else {
        (a, b)
    }
}

/// The cell that class `x` stands for, if it is one of the three given classes.
pub open spec fn cell_of(x: usize, empty: usize, black: usize, white: usize) -> Option<Cell> {
    if x == empty {
        Some(Cell::Empty)
    } else if x == black {
        Some(Cell::Black)
    } else if x == white {
        Some(Cell::White)
    } else {
        None
    }
}

/// Every class is one of the three given classes.
pub open spec fn known_classes(classes: Seq<usize>, empty: usize, black: usize, white: usize) -> bool {
    forall|k: int| 0 <= k < classes.len() ==> #[trigger] cell_of(classes[k], empty, black, white) is Some
}

/// The cells that the classes stand for.
pub open spec fn mapped_cells(classes: Seq<usize>, empty: usize, black: usize, white: usize) -> Seq<Cell> {
    classes.map_values(
        |x: usize|
            match cell_of(x, empty, black, white) {
                Some(cell) => cell,
                None => Cell::Empty,
            },
    )
}

/// The board that the cells give when class `empty` is empty and `a` and `b` are the colours.
pub open spec fn candidate_board(cells: AnalyzeCells, empty: usize, a: usize, b: usize) -> Seq<Seq<Cell>> {
    let (black, white) = colors(cells.centroid_brightness@, a, b);
    board_of(mapped_cells(cells.cell_classes@, empty, black, white), cells.cols as int)
}

/// The decimal digit `d`.
pub open spec fn digit_char(d: nat) -> char {
    if d == 0 {
        '0'
    } else if d == 1 {
        '1'
    } else if d == 2 {
        '2'
    } else if d == 3 {
        '3'
    } else if d == 4 {
        '4'
    } else if d == 5 {
        '5'
    } else if d == 6 {
        '6'
    } else if d == 7 {
        '7'
    } else if d == 8 {
        '8'
    } else {
        '9'
    }
}

/// `n` written in decimal, without leading zeros.
pub open spec fn decimal(n: nat) -> Seq<char>
    decreases n,
{
    if n < 10 {
        seq![digit_char(n)]
    } else {
        decimal(n / 10).push(digit_char(n % 10))
    }
}

/// The message for a cell whose class is none of the three the board uses.
pub open spec fn unknown_class_message(x: usize) -> Seq<char> {
    "unknown cell class "@ + decimal(x as nat)
}

/// The message for cells that do not fill whole rows.
pub open spec fn reshape_message() -> Seq<char> {
    "reshape failed: the cells do not fill whole rows"@
}

/// The message for cells that no choice of the empty class turns into a valid board.
pub open spec fn no_valid_assignment_message() -> Seq<char> {
    "no assignment of colors produces a valid grid"@
}

/// Appends `n` in decimal.
fn append_decimal(out: &mut String, n: usize)
    ensures
        final(out)@ == old(out)@ + decimal(n as nat),
    decreases n,
{
    if n >= 10 {
        append_decimal(out, n / 10);
    }
    let d = n % 10;
    proof {
        reveal_strlit("0");
        reveal_strlit("1");
        reveal_strlit("2");
        reveal_strlit("3");
        reveal_strlit("4");
        reveal_strlit("5");
        reveal_strlit("6");
        reveal_strlit("7");
        reveal_strlit("8");
        reveal_strlit("9");
    }
    let digit = if d == 0 {
        "0"
    } else if d == 1 {
        "1"
    } else if d == 2 {
        "2"
    } else if d == 3 {
        "3"
    } else if d == 4 {
        "4"
    } else if d == 5 {
        "5"
    } else if d == 6 {
        "6"
    } else if d == 7 {
        "7"
    } else if d == 8 {
        "8"
    } else {
        "9"
    };
    assert(digit@ == seq![digit_char(d as nat)]);
    out.append(digit);
    assert(old(out)@ + decimal(n as nat) =~= if n >= 10 {
        old(out)@ + decimal((n / 10) as nat) + digit@
    } else {
        old(out)@ + digit@
    });
}

fn unknown_class_error(x: usize) -> (e: AnalyzeError)
    ensures
        e.message() == unknown_class_message(x),
{
    let mut text = "unknown cell class ".to_string();
    append_decimal(&mut text, x);
    AnalyzeError::Other(text)
}

/// The board the cells give when class `empty` is empty and classes `color_a` and `color_b`
/// are the colours, the darker of the two black.
fn make_grid(cells: &AnalyzeCells, empty: usize, color_a: usize, color_b: usize) -> (res: AnalyzeResult<Grid>)
    requires
        cells.cols > 0,
        cells.cell_classes@.len() > 0,
        cells.cell_classes@.len() <= isize::MAX,
        color_a < cells.centroid_brightness@.len(),
        color_b < cells.centroid_brightness@.len(),
    ensures
        ({
            let classes = cells.cell_classes@;
            let (black, white) = colors(cells.centroid_brightness@, color_a, color_b);
            match res {
                Ok(g) => {
                    &&& known_classes(classes, empty, black, white)
                    &&& classes.len() as int % (cells.cols as int) == 0
                    &&& g@ == candidate_board(*cells, empty, color_a, color_b)
                },
                Err(e) => {
                    ||| exists|k: int|
                        0 <= k < classes.len() && cell_of(classes[k], empty, black, white) is None
                            && known_classes(classes.take(k), empty, black, white)
                            && e.message() == unknown_class_message(#[trigger] classes[k])
                    ||| known_classes(classes, empty, black, white) && classes.len() as int % (
                    cells.cols as int) != 0 && e.message() == reshape_message()
                },
            }
        }),
{
    let (black, white) = if cells.centroid_brightness[color_a] > cells.centroid_brightness[color_b] {
        (color_b, color_a)
    } else {
        (color_a, color_b)
    };
    let ghost classes = cells.cell_classes@;
    let n = cells.cell_classes.len();
    let mut mapped: Vec<Cell> = Vec::new();
    for k in 0..n
        invariant
            n == classes.len(),
            classes == cells.cell_classes@,
            (black, white) == colors(cells.centroid_brightness@, color_a, color_b),
            known_classes(classes.take(k as int), empty, black, white),
            mapped@ == mapped_cells(classes.take(k as int), empty, black, white),
    {
        let cls = cells.cell_classes[k];
        let cell = if cls == empty {
            Cell::Empty
        } else if cls == black {
            Cell::Black
        } else if cls == white {
            Cell::White
        } else {
            assert(classes[k as int] == cls);
            return Err(unknown_class_error(cls));
        };
        mapped.push(cell);
        assert(classes.take(k + 1) =~= classes.take(k as int).push(cls));
        assert(mapped@ =~= mapped_cells(classes.take(k + 1), empty, black, white));
    }
    assert(classes.take(n as int) =~= classes);
    if n % cells.cols != 0 {
        return Err(AnalyzeError::Other("reshape failed: the cells do not fill whole rows".to_string()));
    }
    Ok(Grid::from_row_major(&mapped, cells.cols))
}

/// Whether no 2x2 block of the board is filled with black or with white.
fn is_valid(grid: &Grid) -> (b: bool)
    ensures
        b == no_solid_block(grid@),
        b == (forall|r: int, c: int|
            #![trigger grid@[r][c], grid@[r + 1][c + 1]]
            0 <= r && r + 1 < grid@.len() && 0 <= c && c + 1 < grid@[0].len() ==> (grid@[r][c]
                == Cell::Empty || grid@[r][c] != grid@[r][c + 1] || grid@[r][c] != grid@[r + 1][c]
                || grid@[r][c] != grid@[r + 1][c + 1])),
{
    proof {
        lemma_no_solid_block_iff(grid@);
    }
    let rows = grid.rows();
    let cols = grid.cols();
    let ghost g = grid@;
    for r in 1..rows
        invariant
            g == grid@,
            rows == g.len(),
            cols == g[0].len(),
            well_shaped(g),
            forall|a: int, c: int|
                #![trigger solid_block(g, a, c)]
                block_in_board(g, a, c) && a + 1 < r ==> !solid_block(g, a, c),
    {
        for c in 1..cols
            invariant
                g == grid@,
                rows == g.len(),
                cols == g[0].len(),
                well_shaped(g),
                1 <= r < rows,
                forall|a: int, e: int|
                    #![trigger solid_block(g, a, e)]
                    block_in_board(g, a, e) && (a + 1 < r || (a + 1 == r && e + 1 < c))
                        ==> !solid_block(g, a, e),
        {
            let c00 = grid.get(r - 1, c - 1);
            let c01 = grid.get(r - 1, c);
            let c10 = grid.get(r, c - 1);
            let c11 = grid.get(r, c);
            assert(g[r - 1].len() == cols && g[r as int].len() == cols);
            if c00 == c01 && c00 == c10 && c00 == c11 && c00 != Cell::Empty {
                assert(solid_block(g, r - 1, c - 1));
                return false;
            }
        }
    }
    true
}

/// Reads the board off clustered cells: the class that makes a valid board when taken as the
/// empty cells is chosen, trying classes 0, 1 and 2 in turn, and of the other two classes the
/// darker is black. When more than one class would do, the result says the board is ambiguous.
///
/// There must be at least one cell: a board has at least one row and one column, so no board
/// stands for an empty list of cells. Clustering returns an error before it gets here when the
/// image yields no cells.
pub fn analyze_puzzle(cells: &AnalyzeCells) -> (res: AnalyzeResult<AnalyzePuzzle>)
    requires
        cells.cols > 0,
        cells.cell_classes@.len() > 0,
        cells.cell_classes@.len() <= isize::MAX,
        cells.centroid_brightness@.len() >= 3,
    ensures
        ({
            let classes = cells.cell_classes@;
            let fits = classes.len() as int % (cells.cols as int) == 0;
            let b0 = candidate_board(*cells, 0, 1, 2);
            let b1 = candidate_board(*cells, 1, 2, 0);
            let b2 = candidate_board(*cells, 2, 0, 1);
            match res {
                Ok(p) => {
                    &&& known_classes(classes, 0, 1, 2)
                    &&& fits
                    &&& p.grid@ == if no_solid_block(b0) {
                        b0
                    } else if no_solid_block(b1) {
                        b1
                    } else {
                        b2
                    }
                    &&& no_solid_block(p.grid@)
                    &&& p.ambiguous == ((no_solid_block(b0) && (no_solid_block(b1) || no_solid_block(b2)))
                        || (no_solid_block(b1) && no_solid_block(b2)))
                    &&& p.grid@.len() * (cells.cols as int) == classes.len()
                    &&& p.grid@[0].len() == cells.cols
                },
                Err(e) => {
                    ||| exists|k: int|
                        0 <= k < classes.len() && classes[k] > 2 && known_classes(classes.take(k), 0, 1, 2)
                            && e.message() == unknown_class_message(#[trigger] classes[k])
                    ||| known_classes(classes, 0, 1, 2) && !fits && e.message() == reshape_message()
                    ||| known_classes(classes, 0, 1, 2) && fits && !no_solid_block(b0) && !no_solid_block(b1)
                        && !no_solid_block(b2) && e.message() == no_valid_assignment_message()
                },
            }
        }),
{
    let ghost classes = cells.cell_classes@;
    proof {
        let bright = cells.centroid_brightness@;
        lemma_same_unknowns(classes, 0, colors(bright, 1, 2).0, colors(bright, 1, 2).1);
        lemma_same_unknowns(classes, 1, colors(bright, 2, 0).0, colors(bright, 2, 0).1);
        lemma_same_unknowns(classes, 2, colors(bright, 0, 1).0, colors(bright, 0, 1).1);
        assert(classes.take(classes.len() as int) =~= classes);
    }
    let empty0 = match make_grid(cells, 0, 1, 2) {
        Ok(g) => g,
        Err(e) => {
            return Err(e);
        },
    };
    let empty1 = match make_grid(cells, 1, 2, 0) {
        Ok(g) => g,
        Err(e) => {
            return Err(e);
        },
    };
    let empty2 = match make_grid(cells, 2, 0, 1) {
        Ok(g) => g,
        Err(e) => {
            return Err(e);
        },
    };
    let empty0_valid = is_valid(&empty0);
    let empty1_valid = is_valid(&empty1);
    let empty2_valid = is_valid(&empty2);
    let (grid, ambiguous) = match (empty0_valid, empty1_valid, empty2_valid) {
        (true, false, false) => (empty0, false),
        (false, true, false) => (empty1, false),
        (false, false, true) => (empty2, false),
        (true, _, _) => (empty0, true),
        (false, true, _) => (empty1, true),
        (false, false, false) => {
            return Err(
                AnalyzeError::Other("no assignment of colors produces a valid grid".to_string()),
            );
        },
    };
    proof {
        let bright = cells.centroid_brightness@;
        let (b0, w0) = colors(bright, 1, 2);
        let (b1, w1) = colors(bright, 2, 0);
        let (b2, w2) = colors(bright, 0, 1);
        lemma_board_of_shape(mapped_cells(classes, 0, b0, w0), cells.cols as int);
        lemma_board_of_shape(mapped_cells(classes, 1, b1, w1), cells.cols as int);
        lemma_board_of_shape(mapped_cells(classes, 2, b2, w2), cells.cols as int);
    }
    Ok(AnalyzePuzzle { grid, ambiguous })
}

/// When the empty class and the two colours are 0, 1 and 2 in some order, the classes that
/// stand for no cell are those above 2.
proof fn lemma_same_unknowns(classes: Seq<usize>, e: usize, b: usize, w: usize)
    requires
        e <= 2,
        b <= 2,
        w <= 2,
        e != b,
        e != w,
        b != w,
    ensures
        forall|x: usize| (#[trigger] cell_of(x, e, b, w) is None) == (x > 2),
        forall|k: int|
            0 <= k <= classes.len() ==> known_classes(#[trigger] classes.take(k), e, b, w)
                == known_classes(classes.take(k), 0, 1, 2),
{
    assert forall|k: int| 0 <= k <= classes.len() implies known_classes(
        #[trigger] classes.take(k),
        e,
        b,
        w,
    ) == known_classes(classes.take(k), 0, 1, 2) by {
        let t = classes.take(k);
        if known_classes(t, e, b, w) {
            assert forall|i: int| 0 <= i < t.len() implies #[trigger] cell_of(t[i], 0, 1, 2) is Some by {
                assert(cell_of(t[i], e, b, w) is Some);
            }
        }
        if known_classes(t, 0, 1, 2) {
            assert forall|i: int| 0 <= i < t.len() implies #[trigger] cell_of(t[i], e, b, w) is Some by {
                assert(cell_of(t[i], 0, 1, 2) is Some);
            }
        }
    }
}

} // verus!
