use sudoku::display::render_playfield;
use sudoku::grid::SudokuPlayfield;

fn text_of(board: SudokuPlayfield) -> String {
    render_playfield(board).into_iter().collect()
}

#[test]
fn board_is_rendered_in_framed_blocks() {
    let board: SudokuPlayfield = [
        6, 2, 5, 0, 0, 0, 7, 0, 0,
        0, 0, 8, 2, 9, 0, 5, 0, 1,
        0, 0, 0, 6, 5, 0, 8, 4, 0,
        5, 6, 3, 0, 7, 0, 0, 0, 0,
        7, 0, 0, 9, 3, 0, 2, 0, 6,
        0, 0, 0, 0, 6, 1, 3, 0, 5,
        8, 0, 4, 7, 1, 0, 6, 0, 3,
        0, 9, 0, 0, 0, 6, 0, 0, 0,
        0, 7, 0, 0, 0, 0, 0, 5, 0,
    ];
    let expected = "-------------------\n\
                    |6 2 5|     |7    |\n\
                    |    8|2 9  |5   1|\n\
                    |     |6 5  |8 4  |\n\
                    -------------------\n\
                    |5 6 3|  7  |     |\n\
                    |7    |9 3  |2   6|\n\
                    |     |  6 1|3   5|\n\
                    -------------------\n\
                    |8   4|7 1  |6   3|\n\
                    |  9  |    6|     |\n\
                    |  7  |     |  5  |\n\
                    -------------------\n";
    assert_eq!(text_of(board), expected);
}

#[test]
fn empty_board_is_rendered_as_spaces() {
    let text = text_of([0; 81]);
    let lines: Vec<&str> = text.lines().collect();
    assert_eq!(lines.len(), 13);
    for (n, line) in lines.iter().enumerate() {
        if n % 4 == 0 {
            assert_eq!(*line, "-------------------");
        } else {
            assert_eq!(*line, "|     |     |     |");
        }
    }
    assert!(text.ends_with('\n'));
}

#[test]
fn every_digit_is_rendered_as_itself() {
    let mut board: SudokuPlayfield = [0; 81];
    for c in 0..9 {
        board[c] = c as i32 + 1;
    }
    let text = text_of(board);
    assert_eq!(text.lines().nth(1), Some("|1 2 3|4 5 6|7 8 9|"));
}

#[test]
fn values_that_are_no_digits_are_rendered_in_decimal() {
    let mut board: SudokuPlayfield = [0; 81];
    board[0] = 10;
    board[1] = -3;
    board[2] = i32::MAX;
    board[3] = i32::MIN;
    board[4] = 907;
    let text = text_of(board);
    assert_eq!(text.lines().nth(1), Some("|10 -3 2147483647|-2147483648 907  |     |"));
    for value in [10, -3, i32::MAX, i32::MIN, 907, 100, -1] {
        let mut one: SudokuPlayfield = [0; 81];
        one[80] = value;
        let text = text_of(one);
        assert_eq!(text.lines().nth(11), Some(format!("|     |     |    {}|", value).as_str()));
    }
}
