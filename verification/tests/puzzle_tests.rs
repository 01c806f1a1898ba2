use yin_yang_extractor::{analyze_puzzle, AnalyzeCells, Cell};

fn cells(cols: usize, classes: &[usize], brightness: [u32; 3]) -> AnalyzeCells {
    AnalyzeCells {
        cols,
        cell_classes: classes.to_vec(),
        centroid_brightness: brightness.to_vec(),
    }
}

fn rows_of(p: &yin_yang_extractor::AnalyzePuzzle) -> Vec<String> {
    let g = &p.grid;
    (0..g.rows())
        .map(|r| {
            (0..g.cols())
                .map(|c| match g.get(r, c) {
                    Cell::Empty => '.',
                    Cell::Black => 'B',
                    Cell::White => 'W',
                })
                .collect()
        })
        .collect()
}

#[test]
fn class_zero_empty_and_darker_class_black() {
    // class 1 is brighter than class 2, so class 2 is black
    let c = cells(3, &[0, 1, 2, 2, 1, 0], [50, 900, 10]);
    let p = analyze_puzzle(&c).unwrap();
    assert_eq!(rows_of(&p), vec![".WB", "BW."]);
    assert!(p.grid.is_valid());
    // no block of this board is solid whichever class is empty
    assert!(p.ambiguous);
}

#[test]
fn equal_brightness_makes_the_first_colour_black() {
    let c = cells(2, &[0, 1, 2, 0], [5, 7, 7]);
    let p = analyze_puzzle(&c).unwrap();
    assert_eq!(rows_of(&p), vec![".B", "W."]);
}

#[test]
fn class_one_is_empty_when_class_zero_fails() {
    // with class 0 empty, class 1 fills the top-left block; with class 1 empty no block is solid
    let c = cells(3, &[1, 1, 0, 1, 1, 2, 0, 2, 2], [100, 1, 50]);
    let p = analyze_puzzle(&c).unwrap();
    // classes 2 (50) and 0 (100): class 2 is darker, so black
    assert_eq!(rows_of(&p), vec!["..W", "..B", "WBB"]);
    assert!(p.grid.is_valid());
}

#[test]
fn class_two_is_empty_when_the_others_fail() {
    let c = cells(2, &[2, 2, 2, 2, 0, 1], [3, 4, 5]);
    let p = analyze_puzzle(&c).unwrap();
    assert_eq!(rows_of(&p), vec!["..", "..", "BW"]);
}

#[test]
fn no_valid_assignment_is_an_error() {
    // every class forms a solid block with every choice of empty class
    let c = cells(2, &[0, 0, 0, 0, 1, 1, 1, 1, 2, 2, 2, 2], [1, 2, 3]);
    let e = analyze_puzzle(&c).err().unwrap();
    assert_eq!(e.to_string(), "no assignment of colors produces a valid grid");
}

#[test]
fn unknown_class_is_an_error() {
    let c = cells(2, &[0, 1, 12, 7], [1, 2, 3]);
    let e = analyze_puzzle(&c).err().unwrap();
    assert_eq!(e.to_string(), "unknown cell class 12");
}

#[test]
fn cells_that_do_not_fill_rows_are_an_error() {
    let c = cells(2, &[0, 1, 2], [1, 2, 3]);
    let e = analyze_puzzle(&c).err().unwrap();
    assert_eq!(e.to_string(), "reshape failed: the cells do not fill whole rows");
}

#[test]
fn several_valid_choices_are_ambiguous() {
    // a checkerboard of classes 1 and 2 with class 0 in one corner: every choice is valid
    let c = cells(2, &[0, 1, 2, 1], [1, 2, 3]);
    let p = analyze_puzzle(&c).unwrap();
    assert!(p.ambiguous);
    assert_eq!(rows_of(&p), vec![".B", "WB"]);
}

#[test]
fn one_valid_choice_is_not_ambiguous() {
    let c = cells(2, &[2, 2, 2, 2, 0, 1], [3, 4, 5]);
    let p = analyze_puzzle(&c).unwrap();
    assert!(!p.ambiguous);
}
