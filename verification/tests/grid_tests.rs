use sudoku::{Sudoku, SudokuError, SudokuRaw};

const PUZZLE: [&str; 9] = [
    "530070000",
    "600195000",
    "098000060",
    "800060003",
    "400803001",
    "700020006",
    "060000280",
    "000419005",
    "000080079",
];

fn rows(lines: &[&str]) -> Vec<String> {
    lines.iter().map(|line| line.to_string()).collect()
}

fn puzzle() -> SudokuRaw {
    SudokuRaw::from_text(&rows(&PUZZLE)).unwrap()
}

#[test]
fn from_text_reads_row_by_row() {
    let grid = puzzle();
    assert_eq!(grid.get(0, 0), 5);
    assert_eq!(grid.get(1, 0), 3);
    assert_eq!(grid.get(4, 0), 7);
    assert_eq!(grid.get(0, 1), 6);
    assert_eq!(grid.get(2, 2), 8);
    assert_eq!(grid.get(1, 2), 9);
    assert_eq!(grid.get(8, 8), 9);
    assert_eq!(grid.get(7, 8), 7);
    assert_eq!(grid.get(8, 7), 5);
    assert_eq!(grid.get(2, 0), 0);
}

#[test]
fn from_text_reads_every_cell() {
    let grid = puzzle();
    for y in 0..9u8 {
        for x in 0..9u8 {
            let expected = PUZZLE[y as usize].as_bytes()[x as usize] - b'0';
            assert_eq!(grid.get(x, y), expected);
        }
    }
}

#[test]
fn from_text_marks_the_filled_cells_as_given() {
    let grid = puzzle();
    for y in 0..9u8 {
        for x in 0..9u8 {
            assert_eq!(grid.is_given(x, y), grid.get(x, y) != 0);
            assert_eq!(grid.is_empty(x, y), grid.get(x, y) == 0);
        }
    }
    assert!(grid.is_given(0, 0));
    assert!(!grid.is_given(2, 0));
    assert!(grid.is_empty(2, 0));
    assert!(!grid.is_empty(0, 0));
}

#[test]
fn text_round_trip() {
    let lines = rows(&PUZZLE);
    let grid = SudokuRaw::from_text(&lines).unwrap();
    assert_eq!(grid.to_text(), lines);
}

#[test]
fn text_round_trip_of_a_full_and_of_an_empty_board() {
    let full = rows(&[
        "534678912",
        "672195348",
        "198342567",
        "859761423",
        "426853791",
        "713924856",
        "961537284",
        "287419635",
        "345286179",
    ]);
    assert_eq!(SudokuRaw::from_text(&full).unwrap().to_text(), full);
    let empty = rows(&["000000000"; 9]);
    assert_eq!(SudokuRaw::from_text(&empty).unwrap().to_text(), empty);
}

#[test]
fn from_text_refuses_too_few_rows() {
    let lines = rows(&PUZZLE[..8]);
    assert_eq!(SudokuRaw::from_text(&lines), Err(SudokuError::FormatError));
    assert_eq!(SudokuRaw::from_text(&[]), Err(SudokuError::FormatError));
}

#[test]
fn from_text_refuses_too_many_rows() {
    let mut lines = rows(&PUZZLE);
    lines.push("000000000".to_string());
    assert_eq!(SudokuRaw::from_text(&lines), Err(SudokuError::FormatError));
}

#[test]
fn from_text_refuses_a_short_row() {
    let mut lines = rows(&PUZZLE);
    lines[4] = "40080300".to_string();
    assert_eq!(SudokuRaw::from_text(&lines), Err(SudokuError::FormatError));
    lines[4] = String::new();
    assert_eq!(SudokuRaw::from_text(&lines), Err(SudokuError::FormatError));
}

#[test]
fn from_text_refuses_a_long_row() {
    let mut lines = rows(&PUZZLE);
    lines[8] = "0000800790".to_string();
    assert_eq!(SudokuRaw::from_text(&lines), Err(SudokuError::FormatError));
}

#[test]
fn from_text_refuses_what_is_not_a_digit() {
    for bad in ["53007000a", "5300700 0", ".30070000", "53-070000", "53007000/", "53007000:"] {
        let mut lines = rows(&PUZZLE);
        lines[0] = bad.to_string();
        assert_eq!(SudokuRaw::from_text(&lines), Err(SudokuError::FormatError));
    }
}

#[test]
fn from_text_refuses_digits_of_other_scripts() {
    let mut lines = rows(&PUZZLE);
    lines[0] = "53007000\u{0663}".to_string();
    assert_eq!(lines[0].chars().count(), 9);
    assert_eq!(SudokuRaw::from_text(&lines), Err(SudokuError::FormatError));
}

#[test]
fn from_builds_the_board_of_a_stored_puzzle() {
    let stored = Sudoku { id: "one".to_string(), difficulty: 3, start: rows(&PUZZLE) };
    let grid = SudokuRaw::from(stored).unwrap();
    assert_eq!(grid, puzzle());
    assert_eq!(grid.to_text(), rows(&PUZZLE));
}

#[test]
fn from_refuses_a_malformed_stored_puzzle() {
    let stored = Sudoku { id: "bad".to_string(), difficulty: 1, start: rows(&["123", "456"]) };
    assert_eq!(SudokuRaw::from(stored), Err(SudokuError::FormatError));
}

#[test]
fn set_writes_one_cell_and_no_other() {
    let mut grid = puzzle();
    let before = grid.clone();
    grid.set(2, 0, 4);
    assert_eq!(grid.get(2, 0), 4);
    for y in 0..9u8 {
        for x in 0..9u8 {
            if (x, y) != (2, 0) {
                assert_eq!(grid.get(x, y), before.get(x, y));
            }
            assert_eq!(grid.is_given(x, y), before.is_given(x, y));
        }
    }
}

#[test]
fn set_asks_no_rule() {
    let mut grid = puzzle();
    grid.set(2, 0, 5);
    assert_eq!(grid.get(2, 0), 5);
    assert_eq!(grid.get(0, 0), 5);
    grid.set(0, 0, 0);
    assert_eq!(grid.get(0, 0), 0);
    assert!(grid.is_empty(0, 0));
    assert!(grid.is_given(0, 0));
}

#[test]
fn a_cell_filled_later_is_no_clue() {
    let mut grid = puzzle();
    grid.set(2, 0, 4);
    assert!(!grid.is_given(2, 0));
    assert!(!grid.is_empty(2, 0));
}

#[test]
fn clone_is_equal_and_apart() {
    let grid = puzzle();
    let mut copy = grid.clone();
    assert_eq!(copy, grid);
    copy.set(8, 0, 2);
    assert_ne!(copy, grid);
    assert_eq!(grid.get(8, 0), 0);
}
