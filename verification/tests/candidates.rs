use std::collections::HashSet;
use sudoku::candidates::valid_options;
use sudoku::grid::SudokuPlayfield;

fn easy() -> SudokuPlayfield {
    [
        6, 2, 5, 0, 0, 0, 7, 0, 0,
        0, 0, 8, 2, 9, 0, 5, 0, 1,
        0, 0, 0, 6, 5, 0, 8, 4, 0,
        5, 6, 3, 0, 7, 0, 0, 0, 0,
        7, 0, 0, 9, 3, 0, 2, 0, 6,
        0, 0, 0, 0, 6, 1, 3, 0, 5,
        8, 0, 4, 7, 1, 0, 6, 0, 3,
        0, 9, 0, 0, 0, 6, 0, 0, 0,
        0, 7, 0, 0, 0, 0, 0, 5, 0,
    ]
}

fn set_of(digits: &[i32]) -> HashSet<i32> {
    digits.iter().copied().collect()
}

#[test]
fn candidates_leave_out_row_column_and_block() {
    assert_eq!(valid_options(3, easy()), set_of(&[1, 3, 4, 8]));
    assert_eq!(valid_options(9, easy()), set_of(&[3, 4]));
    assert_eq!(valid_options(80, easy()), set_of(&[2, 4, 8, 9]));
}

#[test]
fn empty_board_leaves_every_digit() {
    let board: SudokuPlayfield = [0; 81];
    for index in [0, 40, 80] {
        assert_eq!(valid_options(index, board), set_of(&[1, 2, 3, 4, 5, 6, 7, 8, 9]));
    }
}

#[test]
fn filled_cell_has_no_candidates() {
    assert_eq!(valid_options(0, easy()), HashSet::new());
    assert_eq!(valid_options(79, easy()), HashSet::new());
}

#[test]
fn zero_is_never_a_candidate() {
    let board: SudokuPlayfield = [0; 81];
    for index in 0..81 {
        assert!(!valid_options(index, board).contains(&0));
    }
}

#[test]
fn row_alone_takes_digits_out() {
    let mut board: SudokuPlayfield = [0; 81];
    board[8] = 7;
    assert_eq!(valid_options(0, board), set_of(&[1, 2, 3, 4, 5, 6, 8, 9]));
}

#[test]
fn column_alone_takes_digits_out() {
    let mut board: SudokuPlayfield = [0; 81];
    board[72] = 7;
    assert_eq!(valid_options(0, board), set_of(&[1, 2, 3, 4, 5, 6, 8, 9]));
}

#[test]
fn block_alone_takes_digits_out() {
    let mut board: SudokuPlayfield = [0; 81];
    board[20] = 7;
    assert_eq!(valid_options(0, board), set_of(&[1, 2, 3, 4, 5, 6, 8, 9]));
    // Cell 60 is in row 6 and column 6: the block of cell 80.
    board[60] = 3;
    assert_eq!(valid_options(80, board), set_of(&[1, 2, 4, 5, 6, 7, 8, 9]));
}

#[test]
fn cell_outside_the_units_does_not_count() {
    let mut board: SudokuPlayfield = [0; 81];
    // Row 3, column 3: shares nothing with cell 0.
    board[30] = 7;
    assert_eq!(valid_options(0, board), set_of(&[1, 2, 3, 4, 5, 6, 7, 8, 9]));
}

#[test]
fn all_nine_digits_around_a_cell_leave_nothing() {
    let mut board: SudokuPlayfield = [0; 81];
    for c in 1..9 {
        board[c] = c as i32;
    }
    board[9] = 9;
    assert_eq!(valid_options(0, board), HashSet::new());
}

#[test]
fn values_that_are_no_digits_take_nothing_out() {
    let mut board: SudokuPlayfield = [0; 81];
    board[1] = 10;
    board[2] = -4;
    assert_eq!(valid_options(0, board), set_of(&[1, 2, 3, 4, 5, 6, 7, 8, 9]));
}
