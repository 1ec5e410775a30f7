//! Boards that no search can complete: a cell that has no candidate left,
//! and a digit that stands twice in a row above and below empty rows.

use vstd::prelude::*;
use vstd::set_lib::{lemma_int_range, lemma_len_subset, set_int_range};
use crate::candidates::is_candidate;
use crate::grid::{are_peers, is_cell, row_of};
use crate::solver::{completes, lemma_completion_holds_candidate, solution_of};

verus! {

/// A board with an empty cell that has no candidate has no solution,
/// whatever else it holds.
pub proof fn lemma_cell_without_candidates_has_no_solution(clues: Seq<i32>, index: int)
    requires
        is_cell(index),
        clues[index] == 0,
        forall|digit: i32| !is_candidate(clues, index, digit),
    ensures
        solution_of(clues) is None,
{
    assert forall|filled: Seq<i32>| !completes(clues, filled) by {
        if completes(clues, filled) {
            lemma_completion_holds_candidate(clues, index, filled);
        }
    }
}

/// Different values that all lie in a finite set are no more than the set
/// holds.
proof fn lemma_distinct_values_fit(values: Seq<int>, allowed: Set<int>)
    requires
        allowed.finite(),
        values.no_duplicates(),
        forall|k: int| 0 <= k < values.len() ==> allowed.contains(#[trigger] values[k]),
    ensures
        values.len() <= allowed.len(),
{
    values.unique_seq_to_set();
    assert(values.to_set().subset_of(allowed));
    lemma_len_subset(values.to_set(), allowed);
}

/// Row `row` of `filled` holds `digit` in column `col`.
spec fn holds_at(filled: Seq<i32>, row: int, col: int, digit: i32) -> bool {
    0 <= col < 9 && filled[row * 9 + col] == digit
}

/// A column in which row `row` of `filled` holds `digit`, if there is one.
spec fn column_holding(filled: Seq<i32>, row: int, digit: i32) -> int {
    choose|col: int| holds_at(filled, row, col, digit)
}

/// The rows other than `row`, counted from 0 to 7.
spec fn other_row(row: int, k: int) -> int {
    if k < row {
        k
    } else {
        k + 1
    }
}

/// A row that the clues leave empty holds every digit once it is completed.
proof fn lemma_empty_row_holds_each_digit(
    clues: Seq<i32>,
    filled: Seq<i32>,
    row: int,
    digit: i32,
)
    requires
        completes(clues, filled),
        0 <= row < 9,
        1 <= digit <= 9,
        forall|i: int| is_cell(i) && row_of(i) == row ==> #[trigger] clues[i] == 0,
    ensures
        holds_at(filled, row, column_holding(filled, row, digit), digit),
{
    let digits = Seq::new(9, |col: int| filled[row * 9 + col] as int);
    if !digits.contains(digit as int) {
        assert forall|k: int, m: int| 0 <= k < m < 9 implies digits[k] != digits[m] by {
            assert(clues[row * 9 + k] == 0);
            assert(are_peers(row * 9 + k, row * 9 + m));
            assert(filled[row * 9 + k] != filled[row * 9 + m]);
        }
        assert(digits.no_duplicates());
        lemma_int_range(1, 10);
        let allowed = set_int_range(1, 10).remove(digit as int);
        assert forall|k: int| 0 <= k < 9 implies allowed.contains(#[trigger] digits[k]) by {
            assert(clues[row * 9 + k] == 0);
            assert(1 <= filled[row * 9 + k] <= 9);
            assert(digits.contains(digits[k]));
        }
        lemma_distinct_values_fit(digits, allowed);
        assert(false);
    }
    let col = choose|col: int| 0 <= col < 9 && digits[col] == digit as int;
    assert(holds_at(filled, row, col, digit));
}

/// One row of `clues` holds a digit from 1 to 9 in its columns `first` and
/// `second`, and every other row is empty.
pub open spec fn digit_twice_in_lone_row(
    clues: Seq<i32>,
    row: int,
    first: int,
    second: int,
) -> bool {
    &&& clues.len() == 81
    &&& 0 <= row < 9
    &&& 0 <= first < second < 9
    &&& 1 <= clues[row * 9 + first] <= 9
    &&& clues[row * 9 + second] == clues[row * 9 + first]
    &&& forall|i: int| is_cell(i) && row_of(i) != row ==> #[trigger] clues[i] == 0
}

/// In a completion, a row other than the one with the repeated digit holds
/// that digit in a column other than the two in which it is repeated.
proof fn lemma_other_row_holds_digit_elsewhere(
    clues: Seq<i32>,
    filled: Seq<i32>,
    row: int,
    first: int,
    second: int,
    other: int,
)
    requires
        digit_twice_in_lone_row(clues, row, first, second),
        completes(clues, filled),
        0 <= other < 9,
        other != row,
    ensures
        holds_at(
            filled,
            other,
            column_holding(filled, other, clues[row * 9 + first]),
            clues[row * 9 + first],
        ),
        column_holding(filled, other, clues[row * 9 + first]) != first,
        column_holding(filled, other, clues[row * 9 + first]) != second,
{
    let digit = clues[row * 9 + first];
    assert forall|i: int| is_cell(i) && row_of(i) == other implies #[trigger] clues[i] == 0 by {}
    lemma_empty_row_holds_each_digit(clues, filled, other, digit);
    let col = column_holding(filled, other, digit);
    assert(row_of(other * 9 + col) == other);
    assert(clues[other * 9 + col] == 0);
    assert(filled[row * 9 + first] == digit);
    assert(filled[row * 9 + second] == digit);
    if col == first {
        assert(are_peers(other * 9 + col, row * 9 + first));
        assert(filled[other * 9 + col] != filled[row * 9 + first]);
    }
    if col == second {
        assert(are_peers(other * 9 + col, row * 9 + second));
        assert(filled[other * 9 + col] != filled[row * 9 + second]);
    }
}

/// In a completion, two empty rows hold a digit in different columns.
proof fn lemma_rows_hold_digit_in_different_columns(
    clues: Seq<i32>,
    filled: Seq<i32>,
    upper: int,
    lower: int,
    digit: i32,
)
    requires
        completes(clues, filled),
        0 <= upper < lower < 9,
        forall|i: int| is_cell(i) && row_of(i) == upper ==> #[trigger] clues[i] == 0,
        holds_at(filled, upper, column_holding(filled, upper, digit), digit),
        holds_at(filled, lower, column_holding(filled, lower, digit), digit),
    ensures
        column_holding(filled, upper, digit) != column_holding(filled, lower, digit),
{
    let col = column_holding(filled, upper, digit);
    if col == column_holding(filled, lower, digit) {
        assert(row_of(upper * 9 + col) == upper);
        assert(clues[upper * 9 + col] == 0);
        assert(are_peers(upper * 9 + col, lower * 9 + col));
        assert(filled[upper * 9 + col] != filled[lower * 9 + col]);
    }
}

/// A board cannot be completed when one of its rows holds a digit twice and
/// all its other rows are empty: each of the eight other rows would hold
/// that digit, in eight different columns, none of them one of the two in
/// which the digit stands already. The search of such a board ends without
/// a solution.
pub proof fn lemma_digit_twice_in_a_row_has_no_solution(
    clues: Seq<i32>,
    row: int,
    first: int,
    second: int,
)
    requires
        digit_twice_in_lone_row(clues, row, first, second),
    ensures
        solution_of(clues) is None,
{
    let digit = clues[row * 9 + first];
    assert forall|filled: Seq<i32>| !completes(clues, filled) by {
        if completes(clues, filled) {
            let cols = Seq::new(8, |k: int| column_holding(filled, other_row(row, k), digit));
            lemma_int_range(0, 9);
            let allowed = set_int_range(0, 9).remove(first).remove(second);
            assert forall|k: int| 0 <= k < 8 implies allowed.contains(#[trigger] cols[k]) by {
                lemma_other_row_holds_digit_elsewhere(
                    clues,
                    filled,
                    row,
                    first,
                    second,
                    other_row(row, k),
                );
            }
            assert forall|k: int, m: int| 0 <= k < m < 8 implies cols[k] != cols[m] by {
                let (upper, lower) = (other_row(row, k), other_row(row, m));
                lemma_other_row_holds_digit_elsewhere(clues, filled, row, first, second, upper);
                lemma_other_row_holds_digit_elsewhere(clues, filled, row, first, second, lower);
                lemma_rows_hold_digit_in_different_columns(clues, filled, upper, lower, digit);
            }
            assert(cols.no_duplicates());
            lemma_distinct_values_fit(cols, allowed);
            assert(allowed.len() == 7);
        }
    }
}

/// The board that holds a 5 in each of the first two cells of its first row
/// and nothing else.
pub open spec fn two_fives() -> Seq<i32> {
    Seq::new(81, |i: int| if i == 0 || i == 1 { 5i32 } else { 0i32 })
}

/// For example, `two_fives` has no solution. The search itself finds this
/// out only after it has tried every way of filling the rows below.
pub proof fn lemma_two_fives_have_no_solution()
    ensures
        solution_of(two_fives()) is None,
{
    lemma_digit_twice_in_a_row_has_no_solution(two_fives(), 0, 0, 1);
}

} // verus!
