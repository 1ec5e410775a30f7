use sudoku::grid::{find_next_index, SudokuPlayfield, NO_MORE_VALUES};
use sudoku::solver::solve_sudoku;

fn easy() -> SudokuPlayfield {
    [
        6, 2, 5, 0, 0, 0, 7, 0, 0,
        0, 0, 8, 2, 9, 0, 5, 0, 1,
        0, 0, 0, 6, 5, 0, 8, 4, 0,
        5, 6, 3, 0, 7, 0, 0, 0, 0,
        7, 0, 0, 9, 3, 0, 2, 0, 6,
        0, 0, 0, 0, 6, 1, 3, 0, 5,
        8, 0, 4, 7, 1, 0, 6, 0, 3,
        0, 9, 0, 0, 0, 6, 0, 0, 0,
        0, 7, 0, 0, 0, 0, 0, 5, 0,
    ]
}

fn easy_solved() -> SudokuPlayfield {
    [
        6, 2, 5, 1, 4, 8, 7, 3, 9,
        4, 3, 8, 2, 9, 7, 5, 6, 1,
        9, 1, 7, 6, 5, 3, 8, 4, 2,
        5, 6, 3, 8, 7, 2, 1, 9, 4,
        7, 4, 1, 9, 3, 5, 2, 8, 6,
        2, 8, 9, 4, 6, 1, 3, 7, 5,
        8, 5, 4, 7, 1, 9, 6, 2, 3,
        3, 9, 2, 5, 8, 6, 4, 1, 7,
        1, 7, 6, 3, 2, 4, 9, 5, 8,
    ]
}

/// The solution that the search finds on the empty board.
fn first_board() -> SudokuPlayfield {
    [
        1, 2, 3, 4, 5, 6, 7, 8, 9,
        4, 5, 6, 7, 8, 9, 1, 2, 3,
        7, 8, 9, 1, 2, 3, 4, 5, 6,
        2, 1, 4, 3, 6, 5, 8, 9, 7,
        3, 6, 5, 8, 9, 7, 2, 1, 4,
        8, 9, 7, 2, 1, 4, 3, 6, 5,
        5, 3, 1, 6, 4, 2, 9, 7, 8,
        6, 4, 2, 9, 7, 8, 5, 3, 1,
        9, 7, 8, 5, 3, 1, 6, 4, 2,
    ]
}

/// Whether two different cells lie in a common row, column or block.
fn are_peers(i: usize, j: usize) -> bool {
    let (ri, ci, rj, cj) = (i / 9, i % 9, j / 9, j % 9);
    i != j && (ri == rj || ci == cj || (ri / 3 == rj / 3 && ci / 3 == cj / 3))
}

/// Whether every cell holds a digit and no two peers hold the same one.
fn is_solved(board: &SudokuPlayfield) -> bool {
    for i in 0..81 {
        if board[i] < 1 || board[i] > 9 {
            return false;
        }
        for j in 0..81 {
            if are_peers(i, j) && board[i] == board[j] {
                return false;
            }
        }
    }
    true
}

#[test]
fn first_empty_cell_is_found_in_index_order() {
    assert_eq!(find_next_index(easy()), 3);
    let mut board = easy_solved();
    board[80] = 0;
    assert_eq!(find_next_index(board), 80);
    board[40] = 0;
    assert_eq!(find_next_index(board), 40);
    board[0] = 0;
    assert_eq!(find_next_index(board), 0);
}

#[test]
fn full_board_has_no_next_index() {
    assert_eq!(NO_MORE_VALUES, -1);
    assert_eq!(find_next_index(easy_solved()), NO_MORE_VALUES);
    assert_eq!(find_next_index([7; 81]), -1);
}

#[test]
fn next_index_looks_for_zero_only() {
    let mut board: SudokuPlayfield = [-1; 81];
    assert_eq!(find_next_index(board), NO_MORE_VALUES);
    board[17] = 0;
    assert_eq!(find_next_index(board), 17);
}

#[test]
fn easy_board_is_solved() {
    let solved = solve_sudoku(easy()).expect("the board has a solution");
    assert!(solved.iter().all(|&value| value != 0));
    assert!(is_solved(&solved));
    assert_eq!(solved, easy_solved());
}

#[test]
fn solution_keeps_the_clues() {
    let clues = easy();
    let solved = solve_sudoku(clues).expect("the board has a solution");
    for i in 0..81 {
        if clues[i] != 0 {
            assert_eq!(solved[i], clues[i]);
        }
        assert!((1..=9).contains(&solved[i]));
    }
}

#[test]
fn empty_board_gets_the_first_board_in_cell_order() {
    let solved = solve_sudoku([0; 81]).expect("the empty board has a solution");
    assert!(is_solved(&solved));
    assert_eq!(solved, first_board());
}

#[test]
fn least_completion_is_chosen_among_several() {
    // Four cells in rows 0 and 5, columns 6 and 7, hold 7 3 over 3 7 in the
    // solved board. Emptied, they can be filled either way round; the search
    // returns the board that holds the smaller digit in the first of them.
    let mut board = easy_solved();
    for i in [6, 7, 51, 52] {
        board[i] = 0;
    }
    let mut expected = easy_solved();
    expected[6] = 3;
    expected[7] = 7;
    expected[51] = 7;
    expected[52] = 3;
    assert!(is_solved(&easy_solved()));
    assert!(is_solved(&expected));
    assert_eq!(solve_sudoku(board), Some(expected));
}

#[test]
fn solvable_board_is_never_reported_absent() {
    let mut board = easy_solved();
    for i in (0..81).step_by(2) {
        board[i] = 0;
    }
    let solved = solve_sudoku(board).expect("a board cut from a solved one has a solution");
    assert!(is_solved(&solved));
    for i in 0..81 {
        if board[i] != 0 {
            assert_eq!(solved[i], board[i]);
        }
    }
    assert_eq!(solved, easy_solved());
}

#[test]
fn full_valid_board_is_returned_unchanged() {
    assert_eq!(solve_sudoku(easy_solved()), Some(easy_solved()));
    assert_eq!(solve_sudoku(first_board()), Some(first_board()));
}

#[test]
fn full_board_is_returned_even_where_it_clashes() {
    // The filled cells of the input are not checked against each other.
    let ones: SudokuPlayfield = [1; 81];
    assert_eq!(solve_sudoku(ones), Some(ones));
}

#[test]
fn clashing_clues_may_still_be_completed() {
    // Two sixes at the start of row 0; the one empty cell still has a
    // candidate, so the search fills it and returns the board.
    let mut board = easy_solved();
    board[1] = 6;
    board[2] = 0;
    let mut expected = easy_solved();
    expected[1] = 6;
    assert_eq!(solve_sudoku(board), Some(expected));
}

#[test]
fn solving_twice_gives_the_same_board() {
    let first = solve_sudoku(easy());
    let second = solve_sudoku(easy());
    assert!(first.is_some());
    assert_eq!(first, second);
    assert_eq!(solve_sudoku([0; 81]), solve_sudoku([0; 81]));
}

#[test]
fn cell_without_candidates_makes_the_board_unsolvable() {
    // Cell 0 sees 1 to 8 in its row and 9 in its column.
    let mut board: SudokuPlayfield = [0; 81];
    for c in 1..9 {
        board[c] = c as i32;
    }
    board[9] = 9;
    assert_eq!(solve_sudoku(board), None);
}

#[test]
fn two_fives_in_a_row_leave_no_solution() {
    // Rows 1 to 8 are those of a solved board whose row 0 holds its 5 in
    // column 4. With two fives at the start of row 0, cell 4 has no digit
    // left once cells 2 and 3 are filled.
    let mut board = first_board();
    for c in 0..9 {
        board[c] = 0;
    }
    board[0] = 5;
    board[1] = 5;
    assert_eq!(solve_sudoku(board), None);
}

#[test]
fn search_backtracks_over_a_wrong_first_choice() {
    // In row 0 the cells 0 and 1 may hold 1 or 2 by their row; column 0
    // holds a 1 further down, so the first choice for cell 1 fails.
    let mut board = first_board();
    board[0] = 0;
    board[1] = 0;
    board[9] = 0;
    board[10] = 0;
    let solved = solve_sudoku(board).expect("the board has a solution");
    assert!(is_solved(&solved));
    assert_eq!(solved, first_board());
}

#[test]
fn input_board_is_left_as_it_was() {
    let board = easy();
    let _ = solve_sudoku(board);
    assert_eq!(board, easy());
}
