use sudoku::{can_place, is_consistent, solve, Outcome, Phase, SearchState, SudokuRaw};

const PUZZLE: [&str; 9] = [
    "530070000",
    "600195000",
    "098000060",
    "800060003",
    "400803001",
    "700020006",
    "060000280",
    "000419005",
    "000080079",
];

const SOLUTION: [&str; 9] = [
    "534678912",
    "672195348",
    "198342567",
    "859761423",
    "426853791",
    "713924856",
    "961537284",
    "287419635",
    "345286179",
];

const BLANK: [&str; 9] = ["000000000"; 9];

/// The first row leaves only a 9 for its last cell, and the last column holds a 9.
const DEAD_END: [&str; 9] = [
    "123456780",
    "000000009",
    "000000000",
    "000000000",
    "000000000",
    "000000000",
    "000000000",
    "000000000",
    "000000000",
];

fn rows(lines: &[&str]) -> Vec<String> {
    lines.iter().map(|line| line.to_string()).collect()
}

fn board(lines: &[&str]) -> SudokuRaw {
    SudokuRaw::from_text(&rows(lines)).unwrap()
}

fn each_digit_once(digits: &[u8]) -> bool {
    let mut seen = [0u8; 10];
    for &digit in digits {
        if digit < 1 || digit > 9 {
            return false;
        }
        seen[digit as usize] += 1;
    }
    (1..=9).all(|digit| seen[digit] == 1)
}

fn every_unit_holds_each_digit_once(grid: &SudokuRaw) -> bool {
    (0..9u8).all(|k| {
        let row: Vec<u8> = (0..9u8).map(|i| grid.get(i, k)).collect();
        let column: Vec<u8> = (0..9u8).map(|i| grid.get(k, i)).collect();
        let block: Vec<u8> =
            (0..9u8).map(|i| grid.get(3 * (k % 3) + i % 3, 3 * (k / 3) + i / 3)).collect();
        each_digit_once(&row) && each_digit_once(&column) && each_digit_once(&block)
    })
}

fn run(grid: &mut SudokuRaw) -> (SearchState, usize) {
    let mut state = SearchState::new();
    let mut transitions = 0;
    while !state.is_terminal() {
        state.step(grid);
        transitions += 1;
    }
    (state, transitions)
}

#[test]
fn the_example_puzzle_is_solved() {
    let mut grid = board(&PUZZLE);
    assert_eq!(solve(&mut grid), Outcome::Solved);
    assert_eq!(grid.to_text()[0], "534678912");
    assert_eq!(grid.to_text(), rows(&SOLUTION));
}

#[test]
fn a_solved_board_holds_each_digit_once_in_every_unit() {
    let mut grid = board(&PUZZLE);
    assert_eq!(solve(&mut grid), Outcome::Solved);
    assert!(every_unit_holds_each_digit_once(&grid));
    assert!(is_consistent(&grid));
}

#[test]
fn the_clues_are_never_altered() {
    let puzzle = board(&PUZZLE);
    let mut grid = puzzle.clone();
    assert_eq!(solve(&mut grid), Outcome::Solved);
    for y in 0..9u8 {
        for x in 0..9u8 {
            assert_eq!(grid.is_given(x, y), puzzle.is_given(x, y));
            if puzzle.is_given(x, y) {
                assert_eq!(grid.get(x, y), puzzle.get(x, y));
                assert_eq!(grid.get(x, y), PUZZLE[y as usize].as_bytes()[x as usize] - b'0');
            }
        }
    }
}

#[test]
fn a_blank_board_is_solved() {
    let mut grid = board(&BLANK);
    assert_eq!(solve(&mut grid), Outcome::Solved);
    assert!(every_unit_holds_each_digit_once(&grid));
}

#[test]
fn a_blank_board_gets_the_first_completion_in_order() {
    let mut grid = board(&BLANK);
    assert_eq!(solve(&mut grid), Outcome::Solved);
    assert_eq!(
        grid.to_text(),
        rows(&[
            "123456789",
            "456789123",
            "789123456",
            "214365897",
            "365897214",
            "897214365",
            "531642978",
            "642978531",
            "978531642",
        ])
    );
}

#[test]
fn of_two_solutions_the_first_in_order_is_found() {
    // In rows 2 and 5 of the solved board, columns 4 and 5 hold 4 2 above 2 4:
    // with these four cells empty the board can be completed in two ways.
    let mut lines = SOLUTION;
    lines[2] = "198300567";
    lines[5] = "713900856";
    let mut grid = board(&lines);
    assert_eq!(solve(&mut grid), Outcome::Solved);
    let mut first = SOLUTION;
    first[2] = "198324567";
    first[5] = "713942856";
    assert_eq!(grid.to_text(), rows(&first));
    assert!(every_unit_holds_each_digit_once(&grid));
    assert!(every_unit_holds_each_digit_once(&board(&SOLUTION)));
}

#[test]
fn clues_at_the_end_of_the_board_are_kept() {
    let mut lines = BLANK;
    lines[8] = "978531642";
    let mut grid = board(&lines);
    assert_eq!(solve(&mut grid), Outcome::Solved);
    assert_eq!(grid.to_text()[0], "123456789");
    assert_eq!(grid.to_text()[8], "978531642");
    assert!(every_unit_holds_each_digit_once(&grid));
}

#[test]
fn solving_a_solved_board_changes_nothing() {
    let mut grid = board(&SOLUTION);
    let before = grid.clone();
    assert_eq!(solve(&mut grid), Outcome::Solved);
    assert_eq!(grid, before);
}

#[test]
fn solving_twice_changes_nothing_the_second_time() {
    let mut grid = board(&PUZZLE);
    assert_eq!(solve(&mut grid), Outcome::Solved);
    let solved = grid.clone();
    assert_eq!(solve(&mut grid), Outcome::Solved);
    assert_eq!(grid, solved);
}

#[test]
fn a_solved_board_is_only_scanned() {
    let mut grid = board(&SOLUTION);
    let before = grid.clone();
    let mut state = SearchState::new();
    for n in 0..81u8 {
        assert_eq!(state.phase(), Phase::Scanning);
        assert_eq!(state.cursor(), (n % 9, n / 9));
        assert_eq!(state.depth(), 0);
        state.step(&mut grid);
        assert_eq!(grid, before);
    }
    assert_eq!(state.phase(), Phase::Scanning);
    assert_eq!(state.cursor(), (0, 9));
    state.step(&mut grid);
    assert_eq!(state.phase(), Phase::Solved);
    assert!(state.is_terminal());
    assert_eq!(state.depth(), 0);
    assert_eq!(grid, before);
}

#[test]
fn two_equal_clues_in_a_row_cannot_be_solved() {
    let mut lines = PUZZLE;
    lines[0] = "530070005";
    let mut grid = board(&lines);
    let before = grid.clone();
    assert_eq!(solve(&mut grid), Outcome::Unsolvable);
    assert_eq!(grid, before);
    let mut lines = BLANK;
    lines[0] = "500000005";
    let mut grid = board(&lines);
    assert_eq!(solve(&mut grid), Outcome::Unsolvable);
    assert_eq!(grid.to_text(), rows(&lines));
}

#[test]
fn two_equal_clues_in_a_column_or_a_box_cannot_be_solved() {
    let mut lines = BLANK;
    lines[0] = "500000000";
    lines[8] = "500000000";
    let mut grid = board(&lines);
    assert_eq!(solve(&mut grid), Outcome::Unsolvable);
    assert_eq!(grid.to_text(), rows(&lines));
    let mut lines = BLANK;
    lines[0] = "500000000";
    lines[2] = "005000000";
    let mut grid = board(&lines);
    assert_eq!(solve(&mut grid), Outcome::Unsolvable);
    assert_eq!(grid.to_text(), rows(&lines));
}

#[test]
fn clues_that_agree_but_leave_no_way_cannot_be_solved() {
    let mut grid = board(&DEAD_END);
    assert!(is_consistent(&grid));
    let before = grid.clone();
    assert_eq!(solve(&mut grid), Outcome::Unsolvable);
    assert_eq!(grid, before);
}

#[test]
fn the_search_starts_scanning_at_the_first_cell() {
    let state = SearchState::new();
    assert_eq!(state.phase(), Phase::Scanning);
    assert_eq!(state.cursor(), (0, 0));
    assert_eq!(state.candidate(), 1);
    assert_eq!(state.depth(), 0);
    assert!(!state.is_terminal());
}

#[test]
fn each_transition_of_a_dead_end() {
    let mut grid = board(&DEAD_END);
    let before = grid.clone();
    let mut state = SearchState::new();
    // Eight filled cells are passed over.
    for n in 0..8u8 {
        assert_eq!((state.phase(), state.cursor()), (Phase::Scanning, (n, 0)));
        state.step(&mut grid);
    }
    assert_eq!((state.phase(), state.cursor()), (Phase::Scanning, (8, 0)));
    // The empty cell turns the search to trying, from 1.
    state.step(&mut grid);
    assert_eq!((state.phase(), state.cursor(), state.candidate()), (Phase::Trying, (8, 0), 1));
    // Each refused digit gives way to the next.
    for digit in 1..9u8 {
        assert_eq!(state.candidate(), digit);
        assert!(!can_place(&grid, 8, 0, digit));
        state.step(&mut grid);
        assert_eq!((state.phase(), state.cursor()), (Phase::Trying, (8, 0)));
    }
    assert_eq!(state.candidate(), 9);
    // After the ninth the cell is exhausted.
    state.step(&mut grid);
    assert_eq!((state.phase(), state.cursor(), state.candidate()), (Phase::Backtrack, (8, 0), 10));
    // Nothing was filled, so nothing can be undone.
    assert_eq!(state.depth(), 0);
    state.step(&mut grid);
    assert_eq!(state.phase(), Phase::Unsolvable);
    assert!(state.is_terminal());
    assert_eq!(grid, before);
    // A search that has ended stays as it is.
    state.step(&mut grid);
    assert_eq!(state.phase(), Phase::Unsolvable);
    assert_eq!(grid, before);
}

#[test]
fn each_transition_of_a_choice_and_its_undoing() {
    // Row 0 leaves 8 and 9 for its two last cells; column 8 holds a 9 and
    // column 7 an 8, so the first choice for (7, 0), the 9, has to be undone.
    let mut lines = BLANK;
    lines[0] = "123456700";
    lines[1] = "000000080";
    lines[3] = "000000009";
    let mut grid = board(&lines);
    let mut state = SearchState::new();
    for _ in 0..7 {
        state.step(&mut grid);
    }
    assert_eq!((state.phase(), state.cursor()), (Phase::Scanning, (7, 0)));
    state.step(&mut grid);
    assert_eq!((state.phase(), state.candidate()), (Phase::Trying, 1));
    for _ in 1..9 {
        state.step(&mut grid);
    }
    assert_eq!((state.phase(), state.cursor(), state.candidate()), (Phase::Trying, (7, 0), 9));
    // 9 fits (7, 0): it is written, the cell goes on the stack, the cursor moves on.
    state.step(&mut grid);
    assert_eq!(grid.get(7, 0), 9);
    assert!(!grid.is_given(7, 0));
    assert_eq!((state.phase(), state.cursor(), state.candidate()), (Phase::Scanning, (8, 0), 1));
    assert_eq!(state.depth(), 1);
    assert_eq!(state.history(), &vec![(7u8, 0u8)]);
    state.step(&mut grid);
    assert_eq!((state.phase(), state.cursor(), state.candidate()), (Phase::Trying, (8, 0), 1));
    // Nothing fits (8, 0).
    for _ in 1..=9 {
        assert_eq!(state.phase(), Phase::Trying);
        state.step(&mut grid);
    }
    assert_eq!((state.phase(), state.cursor(), state.candidate()), (Phase::Backtrack, (8, 0), 10));
    // The 9 is taken back and the digit after it is up.
    state.step(&mut grid);
    assert_eq!(grid.get(7, 0), 0);
    assert_eq!((state.phase(), state.cursor(), state.candidate()), (Phase::Trying, (7, 0), 10));
    assert_eq!(state.depth(), 0);
    assert!(state.history().is_empty());
    state.step(&mut grid);
    assert_eq!(state.phase(), Phase::Backtrack);
    state.step(&mut grid);
    assert_eq!(state.phase(), Phase::Unsolvable);
    assert_eq!(grid, board(&lines));
}

#[test]
fn counting_the_transitions() {
    let mut grid = board(&SOLUTION);
    let (state, transitions) = run(&mut grid);
    assert_eq!(state.phase(), Phase::Solved);
    assert_eq!(transitions, 82);
    let mut grid = board(&DEAD_END);
    let (state, transitions) = run(&mut grid);
    assert_eq!(state.phase(), Phase::Unsolvable);
    assert_eq!(transitions, 19);
    let mut grid = board(&BLANK);
    let (state, transitions) = run(&mut grid);
    assert_eq!(state.phase(), Phase::Solved);
    assert_eq!(transitions, 3916);
    let mut grid = board(&PUZZLE);
    let (state, transitions) = run(&mut grid);
    assert_eq!(state.phase(), Phase::Solved);
    assert_eq!(transitions, 48837);
}

#[test]
fn stepping_and_solving_agree() {
    let mut stepped = board(&PUZZLE);
    let (state, _) = run(&mut stepped);
    assert_eq!(state.phase(), Phase::Solved);
    assert_eq!(state.cursor(), (0, 9));
    assert_eq!(state.depth(), 51);
    let mut solved = board(&PUZZLE);
    assert_eq!(solve(&mut solved), Outcome::Solved);
    assert_eq!(stepped, solved);
}

#[test]
fn the_stack_holds_the_filled_cells_in_scan_order() {
    let mut grid = board(&PUZZLE);
    let puzzle = grid.clone();
    let (state, _) = run(&mut grid);
    let mut expected = Vec::new();
    for y in 0..9u8 {
        for x in 0..9u8 {
            if puzzle.is_empty(x, y) {
                expected.push((x, y));
            }
        }
    }
    assert_eq!(state.history(), &expected);
    assert_eq!(state.depth(), expected.len());
}

#[test]
fn the_stack_grows_and_shrinks_by_one_cell() {
    let mut grid = board(&PUZZLE);
    let mut state = SearchState::new();
    let mut deepest = 0;
    while !state.is_terminal() {
        let before = state.history().clone();
        let phase = state.phase();
        state.step(&mut grid);
        let after = state.history();
        match (phase, state.phase()) {
            (Phase::Trying, Phase::Scanning) => {
                assert_eq!(after.len(), before.len() + 1);
                assert_eq!(after[..before.len()], before[..]);
                let (x, y) = after[before.len()];
                assert!((1..=9).contains(&grid.get(x, y)));
            }
            (Phase::Backtrack, Phase::Trying) => {
                assert_eq!(before.len(), after.len() + 1);
                assert_eq!(before[..after.len()], after[..]);
                assert_eq!(state.cursor(), before[after.len()]);
                assert_eq!(grid.get(state.cursor().0, state.cursor().1), 0);
                assert!((2..=10).contains(&state.candidate()));
            }
            _ => assert_eq!(after, &before),
        }
        assert!(is_consistent(&grid));
        deepest = deepest.max(state.depth());
    }
    assert_eq!(deepest, 51);
}

#[test]
fn a_search_that_has_ended_in_solved_stays_as_it_is() {
    let mut grid = board(&SOLUTION);
    let (mut state, _) = run(&mut grid);
    assert_eq!(state.phase(), Phase::Solved);
    let before = grid.clone();
    state.step(&mut grid);
    assert_eq!((state.phase(), state.cursor(), state.depth()), (Phase::Solved, (0, 9), 0));
    assert_eq!(grid, before);
}

#[test]
fn cells_filled_by_hand_are_kept_like_clues() {
    let mut grid = board(&BLANK);
    grid.set(0, 0, 9);
    grid.set(8, 8, 1);
    assert!(!grid.is_given(0, 0));
    assert_eq!(solve(&mut grid), Outcome::Solved);
    assert_eq!(grid.get(0, 0), 9);
    assert_eq!(grid.get(8, 8), 1);
    assert!(every_unit_holds_each_digit_once(&grid));
    for y in 0..9u8 {
        for x in 0..9u8 {
            assert!(!grid.is_given(x, y));
        }
    }
}

#[test]
fn a_hard_puzzle_is_solved() {
    let mut grid = board(&[
        "800000000",
        "003600000",
        "070090200",
        "050007000",
        "000045700",
        "000100030",
        "001000068",
        "008500010",
        "090000400",
    ]);
    assert_eq!(solve(&mut grid), Outcome::Solved);
    assert_eq!(
        grid.to_text(),
        rows(&[
            "812753649",
            "943682175",
            "675491283",
            "154237896",
            "369845721",
            "287169534",
            "521974368",
            "438526917",
            "796318452",
        ])
    );
}
