//! The board as text: nine lines of cells, framed into 3x3 blocks.

use vstd::prelude::*;
use crate::grid::SudokuPlayfield;

verus! {

/// The character of the digit `d`, for `d` from 0 to 9.
pub open spec fn digit_char(d: int) -> char {
    (48 + d) as char
}

/// The decimal digits of `n`, most significant first.
pub open spec fn digits_of(n: nat) -> Seq<char>
    decreases n,
{
    if n < 10 {
        seq![digit_char(n as int)]
    } else {
        digits_of(n / 10).push(digit_char((n % 10) as int))
    }
}

/// `value` written in decimal, with a minus sign before a negative one.
pub open spec fn decimal(value: int) -> Seq<char> {
    if value < 0 {
        seq!['-'] + digits_of((-value) as nat)
    } else {
        digits_of(value as nat)
    }
}

/// The text of one cell: a space for an empty cell, else what it holds.
pub open spec fn cell_text(value: i32) -> Seq<char> {
    if value == 0 {
        seq![' ']
    } else {
        decimal(value as int)
    }
}

/// A cell with what is printed around it: a bar before the first cell of a
/// block, and a space after a cell that is not the last of its block.
pub open spec fn framed_cell(value: i32, col: int) -> Seq<char> {
    let before = if col % 3 == 0 {
        seq!['|']
    } else {
        Seq::<char>::empty()
    };
    let after = if col % 3 != 2 {
        seq![' ']
    } else {
        Seq::<char>::empty()
    };
    before + cell_text(value) + after
}

/// The first `upto` framed cells of row `row`.
pub open spec fn row_cells(cells: Seq<i32>, row: int, upto: int) -> Seq<char>
    decreases upto,
{
    if upto <= 0 {
        Seq::<char>::empty()
    } else {
        row_cells(cells, row, upto - 1) + framed_cell(cells[row * 9 + upto - 1], upto - 1)
    }
}

/// The horizontal rule: 19 dashes and a line break.
pub open spec fn rule() -> Seq<char> {
    Seq::new(19, |i: int| '-').push('\n')
}

/// The line of row `row`, with a rule above it where a block begins.
pub open spec fn row_text(cells: Seq<i32>, row: int) -> Seq<char> {
    let above = if row % 3 == 0 {
        rule()
    } else {
        Seq::<char>::empty()
    };
    above + row_cells(cells, row, 9) + seq!['|', '\n']
}

/// The lines of the first `upto` rows.
pub open spec fn rows_text(cells: Seq<i32>, upto: int) -> Seq<char>
    decreases upto,
{
    if upto <= 0 {
        Seq::<char>::empty()
    } else {
        rows_text(cells, upto - 1) + row_text(cells, upto - 1)
    }
}

/// The whole board as text: the nine rows, and a closing rule.
pub open spec fn rendering(cells: Seq<i32>) -> Seq<char> {
    rows_text(cells, 9) + rule()
}

/// Appends the decimal digits of `n` to `text`.
fn push_digits(text: &mut Vec<char>, n: u32)
    ensures
        final(text)@ == old(text)@ + digits_of(n as nat),
    decreases n,
{
    if n >= 10 {
        push_digits(text, n / 10);
    }
    let digit: u8 = (n % 10) as u8;
    text.push((48 + digit) as char);
    assert(final(text)@ =~= old(text)@ + digits_of(n as nat));
}

/// Appends the text of one cell to `text`.
fn push_cell(text: &mut Vec<char>, value: i32)
    ensures
        final(text)@ == old(text)@ + cell_text(value),
{
    if value == 0 {
        text.push(' ');
    } else if value < 0 {
        let magnitude: i64 = 0 - (value as i64);
        text.push('-');
        push_digits(text, magnitude as u32);
    } else {
        push_digits(text, value as u32);
    }
    assert(final(text)@ =~= old(text)@ + cell_text(value));
}

/// Appends the horizontal rule to `text`.
fn push_rule(text: &mut Vec<char>)
    ensures
        final(text)@ == old(text)@ + rule(),
{
    let ghost start = text@;
    let mut i: usize = 0;
    while i < 19
        invariant
            i <= 19,
            text@ == start + Seq::new(i as nat, |k: int| '-'),
        decreases 19 - i,
    {
        text.push('-');
        i += 1;
        assert(text@ =~= start + Seq::new(i as nat, |k: int| '-'));
    }
    text.push('\n');
    assert(text@ =~= start + rule());
}

/// Renders the board as text. Each row is a line of the form
/// `|a b c|d e f|g h i|`, where an empty cell is a space; a rule of 19
/// dashes stands above every third row and below the last one. Every line
/// ends in a line break.
pub fn render_playfield(playfield: SudokuPlayfield) -> (text: Vec<char>)
    ensures
        text@ == rendering(playfield@),
{
    let mut text: Vec<char> = Vec::new();
    let mut row: usize = 0;
    while row < 9
        invariant
            row <= 9,
            text@ == rows_text(playfield@, row as int),
        decreases 9 - row,
    {
        let ghost above = text@;
        if row % 3 == 0 {
            push_rule(&mut text);
        }
        let ghost start = text@;
        let mut col: usize = 0;
        while col < 9
            invariant
                col <= 9,
                row < 9,
                text@ == start + row_cells(playfield@, row as int, col as int),
            decreases 9 - col,
        {
            let ghost before = text@;
            if col % 3 == 0 {
                text.push('|');
            }
            push_cell(&mut text, playfield[row * 9 + col]);
            if col % 3 != 2 {
                text.push(' ');
            }
            assert(text@ =~= before + framed_cell(playfield@[row * 9 + col], col as int));
            col += 1;
            assert(text@ =~= start + row_cells(playfield@, row as int, col as int));
        }
        text.push('|');
        text.push('\n');
        assert(text@ =~= above + row_text(playfield@, row as int));
        row += 1;
    }
    push_rule(&mut text);
    text
}

} // verus!
