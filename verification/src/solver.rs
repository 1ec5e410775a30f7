//! The search: what it means to complete a board, which completion the
//! search returns, and the search itself.

use vstd::prelude::*;
use vstd::std_specs::hash::*;
use crate::candidates::{candidates, is_candidate, valid_options};
use crate::grid::{
    are_peers, empty_count, find_next_index, is_cell, is_first_empty, is_full,
    lemma_filling_lowers_empty_count, share_unit, SudokuPlayfield, NO_MORE_VALUES,
};

verus! {

broadcast use group_hash_axioms;

/// `filled` completes `clues` as the search understands it: every filled
/// cell of `clues` is kept, every empty cell of `clues` holds a digit from 1
/// to 9, and that digit occurs in no other cell of the cell's row, column
/// and block. Two cells that `clues` already fills are never compared with
/// each other, and what they hold is not examined.
pub open spec fn completes(clues: Seq<i32>, filled: Seq<i32>) -> bool {
    &&& clues.len() == 81
    &&& filled.len() == 81
    &&& forall|i: int| is_cell(i) && clues[i] != 0 ==> #[trigger] filled[i] == clues[i]
    &&& forall|i: int| is_cell(i) && clues[i] == 0 ==> 1 <= #[trigger] filled[i] <= 9
    &&& forall|i: int, j: int|
        #![trigger filled[i], filled[j]]
        is_cell(i) && clues[i] == 0 && are_peers(i, j) ==> filled[i] != filled[j]
}

/// `a` comes before `b` when the two are read cell by cell in index order:
/// at the first cell where they differ, `a` holds the smaller value.
pub open spec fn precedes(a: Seq<i32>, b: Seq<i32>) -> bool {
    exists|k: int|
        0 <= k < a.len() && k < b.len() && #[trigger] a[k] < b[k] && forall|j: int|
            0 <= j < k ==> a[j] == b[j]
}

/// `filled` completes `clues`, and it comes before every other board that
/// does.
pub open spec fn is_least_completion(clues: Seq<i32>, filled: Seq<i32>) -> bool {
    &&& completes(clues, filled)
    &&& forall|other: Seq<i32>| #[trigger]
        completes(clues, other) ==> other == filled || precedes(filled, other)
}

/// Some board completes `clues`.
pub open spec fn has_completion(clues: Seq<i32>) -> bool {
    exists|filled: Seq<i32>| completes(clues, filled)
}

/// What the search yields for `clues`: the least completion, or nothing when
/// no board completes `clues`.
pub open spec fn solution_of(clues: Seq<i32>) -> Option<Seq<i32>> {
    if has_completion(clues) {
        Some(choose|filled: Seq<i32>| is_least_completion(clues, filled))
    } else {
        None
    }
}

/// `result` is what a search of `clues` may return: the least completion,
/// or nothing where no board completes `clues`.
pub open spec fn is_search_result(clues: Seq<i32>, result: Option<Seq<i32>>) -> bool {
    match result {
        Some(filled) => is_least_completion(clues, filled),
        None => !has_completion(clues),
    }
}

/// The cells of a search result.
pub open spec fn cells_of(result: Option<SudokuPlayfield>) -> Option<Seq<i32>> {
    match result {
        Some(playfield) => Some(playfield@),
        None => None,
    }
}

/// A board without empty cells is its own and only completion.
pub proof fn lemma_full_board_is_its_least_completion(clues: Seq<i32>)
    requires
        clues.len() == 81,
        is_full(clues),
    ensures
        is_least_completion(clues, clues),
{
    assert forall|other: Seq<i32>| #[trigger] completes(clues, other) implies other == clues by {
        assert(other =~= clues);
    }
}

/// A completion stays one when the digit it holds in an empty cell is
/// written into that cell.
pub proof fn lemma_completion_survives_filling(clues: Seq<i32>, index: int, filled: Seq<i32>)
    requires
        completes(clues, filled),
        is_cell(index),
        clues[index] == 0,
    ensures
        completes(clues.update(index, filled[index]), filled),
{
}

/// The digit that a completion holds in an empty cell is a candidate of
/// that cell.
pub proof fn lemma_completion_holds_candidate(clues: Seq<i32>, index: int, filled: Seq<i32>)
    requires
        completes(clues, filled),
        is_cell(index),
        clues[index] == 0,
    ensures
        is_candidate(clues, index, filled[index]),
{
    let digit = filled[index];
    assert forall|j: int| is_cell(j) && share_unit(index, j) implies #[trigger] clues[j]
        != digit by {
        if j != index && clues[j] != 0 {
            assert(are_peers(index, j));
            assert(filled[index] != filled[j]);
        }
    }
}

/// Once a candidate is written into an empty cell, whatever completes the
/// new board completes the old one.
pub proof fn lemma_completion_after_candidate(
    clues: Seq<i32>,
    index: int,
    digit: i32,
    filled: Seq<i32>,
)
    requires
        clues.len() == 81,
        is_cell(index),
        clues[index] == 0,
        is_candidate(clues, index, digit),
        completes(clues.update(index, digit), filled),
    ensures
        completes(clues, filled),
        filled[index] == digit,
{
    let next = clues.update(index, digit);
    assert(next[index] == digit);
    assert forall|i: int, j: int|
        #![trigger filled[i], filled[j]]
        is_cell(i) && clues[i] == 0 && are_peers(i, j) implies filled[i] != filled[j] by {
        if i != index {
            assert(next[i] == 0);
        } else if clues[j] != 0 {
            assert(share_unit(index, j));
            assert(next[j] == clues[j]);
        } else {
            assert(next[j] == 0);
            assert(are_peers(j, i));
            assert(filled[j] != filled[i]);
        }
    }
    assert forall|i: int| is_cell(i) && clues[i] == 0 implies 1 <= #[trigger] filled[i] <= 9 by {
        if i != index {
            assert(next[i] == 0);
        }
    }
    assert forall|i: int| is_cell(i) && clues[i] != 0 implies filled[i] == clues[i] by {
        assert(next[i] == clues[i]);
    }
}

/// The step of the search. Let `index` be the first empty cell and `digit`
/// one of its candidates, such that no completion holds a smaller digit
/// there. Then the least completion of the board with `digit` written into
/// the cell is the least completion of the board itself.
pub proof fn lemma_least_completion_through_first_empty(
    clues: Seq<i32>,
    index: int,
    digit: i32,
    filled: Seq<i32>,
)
    requires
        clues.len() == 81,
        is_first_empty(clues, index),
        is_candidate(clues, index, digit),
        forall|other: Seq<i32>| #[trigger] completes(clues, other) ==> other[index] >= digit,
        is_least_completion(clues.update(index, digit), filled),
    ensures
        is_least_completion(clues, filled),
{
    let next = clues.update(index, digit);
    lemma_completion_after_candidate(clues, index, digit, filled);
    assert forall|other: Seq<i32>| #[trigger] completes(clues, other) implies other == filled
        || precedes(filled, other) by {
        if other[index] == digit {
            lemma_completion_survives_filling(clues, index, other);
            assert(clues.update(index, other[index]) == next);
            assert(completes(next, other));
        } else {
            assert(filled[index] < other[index]);
            assert forall|j: int| 0 <= j < index implies filled[j] == other[j] by {
                assert(clues[j] != 0);
            }
            assert(precedes(filled, other));
        }
    }
}

/// Two least completions of one board are the same board.
pub proof fn lemma_least_completion_is_unique(clues: Seq<i32>, a: Seq<i32>, b: Seq<i32>)
    requires
        is_least_completion(clues, a),
        is_least_completion(clues, b),
    ensures
        a == b,
{
    if a != b {
        assert(precedes(a, b));
        assert(precedes(b, a));
        let k = choose|k: int|
            0 <= k < a.len() && k < b.len() && #[trigger] a[k] < b[k] && forall|j: int|
                0 <= j < k ==> a[j] == b[j];
        let m = choose|m: int|
            0 <= m < b.len() && m < a.len() && #[trigger] b[m] < a[m] && forall|j: int|
                0 <= j < m ==> b[j] == a[j];
        if k < m {
            assert(b[k] == a[k]);
        } else if m < k {
            assert(a[m] == b[m]);
        }
    }
}

/// A board with an empty cell has a first empty cell: the lowest empty
/// index at or after `from`, when no cell before `from` is empty.
proof fn lemma_first_empty_from(cells: Seq<i32>, from: int) -> (index: int)
    requires
        0 <= from <= cells.len(),
        forall|j: int| 0 <= j < from ==> cells[j] != 0,
        !is_full(cells),
    ensures
        is_first_empty(cells, index),
    decreases cells.len() - from,
{
    if from < cells.len() && cells[from] == 0 {
        from
    } else {
        lemma_first_empty_from(cells, from + 1)
    }
}

/// Among the boards that complete `clues`, if there is any, one comes
/// before all the others.
pub proof fn lemma_least_completion_exists(clues: Seq<i32>)
    requires
        has_completion(clues),
    ensures
        exists|filled: Seq<i32>| is_least_completion(clues, filled),
    decreases empty_count(clues), 10nat,
{
    if is_full(clues) {
        lemma_full_board_is_its_least_completion(clues);
    } else {
        let index = lemma_first_empty_from(clues, 0);
        lemma_least_completion_from_digit(clues, index, 1);
    }
}

/// The same, when no completion holds less than `digit` in the first empty
/// cell.
proof fn lemma_least_completion_from_digit(clues: Seq<i32>, index: int, digit: i32)
    requires
        has_completion(clues),
        is_first_empty(clues, index),
        1 <= digit <= 10,
        forall|other: Seq<i32>| #[trigger] completes(clues, other) ==> other[index] >= digit,
    ensures
        exists|filled: Seq<i32>| is_least_completion(clues, filled),
    decreases empty_count(clues), 10 - digit,
{
    let some = choose|filled: Seq<i32>| completes(clues, filled);
    assert(1 <= some[index] <= 9);
    if exists|other: Seq<i32>| completes(clues, other) && other[index] == digit {
        let other = choose|other: Seq<i32>| completes(clues, other) && other[index] == digit;
        let next = clues.update(index, digit);
        lemma_completion_survives_filling(clues, index, other);
        lemma_completion_holds_candidate(clues, index, other);
        assert(completes(next, other));
        lemma_filling_lowers_empty_count(clues, index, digit);
        lemma_least_completion_exists(next);
        let filled = choose|filled: Seq<i32>| is_least_completion(next, filled);
        lemma_least_completion_through_first_empty(clues, index, digit, filled);
    } else {
        lemma_least_completion_from_digit(clues, index, (digit + 1) as i32);
    }
}

/// `solution_of` is the least completion where there is a completion, and
/// nothing where there is none.
pub proof fn lemma_solution_of(clues: Seq<i32>)
    ensures
        is_search_result(clues, solution_of(clues)),
{
    if has_completion(clues) {
        lemma_least_completion_exists(clues);
    }
}

/// A search result is `solution_of`: the contract of the search leaves room
/// for one result only.
pub proof fn lemma_search_result_is_unique(clues: Seq<i32>, result: Option<Seq<i32>>)
    requires
        is_search_result(clues, result),
    ensures
        result == solution_of(clues),
{
    lemma_solution_of(clues);
    if let Some(filled) = result {
        assert(completes(clues, filled));
        lemma_least_completion_is_unique(clues, filled, solution_of(clues).unwrap());
    }
}

/// Solves the board by depth-first search. The first empty cell in index
/// order is taken; each of its candidates is tried in ascending order on a
/// copy of the board, and the first copy that the search completes is
/// returned at once. A board without empty cells is returned as it is.
/// Without a completion the result is `None`.
///
/// The filled cells of the input are not checked against each other.
pub fn solve_sudoku(input_playfield: SudokuPlayfield) -> (result: Option<SudokuPlayfield>)
    ensures
        is_search_result(input_playfield@, cells_of(result)),
        cells_of(result) == solution_of(input_playfield@),
    decreases empty_count(input_playfield@),
{
    let index = find_next_index(input_playfield);
    if index == NO_MORE_VALUES {
        proof {
            lemma_full_board_is_its_least_completion(input_playfield@);
            lemma_search_result_is_unique(input_playfield@, Some(input_playfield@));
        }
        return Some(input_playfield);
    }
    let cell: usize = index as usize;
    let options = valid_options(cell, input_playfield);
    let mut digit: i32 = 1;
    while digit <= 9
        invariant
            1 <= digit <= 10,
            cell < 81,
            is_first_empty(input_playfield@, cell as int),
            options@ == candidates(input_playfield@, cell as int),
            forall|other: Seq<i32>| #[trigger]
                completes(input_playfield@, other) ==> other[cell as int] >= digit,
        decreases 10 - digit,
    {
        if options.contains(&digit) {
            let mut playfield = input_playfield;
            playfield[cell] = digit;
            proof {
                lemma_filling_lowers_empty_count(input_playfield@, cell as int, digit);
            }
            let attempt = solve_sudoku(playfield);
            if attempt.is_some() {
                proof {
                    lemma_least_completion_through_first_empty(
                        input_playfield@,
                        cell as int,
                        digit,
                        attempt.unwrap()@,
                    );
                    lemma_search_result_is_unique(input_playfield@, cells_of(attempt));
                }
                return attempt;
            }
            assert forall|other: Seq<i32>| #[trigger]
                completes(input_playfield@, other) implies other[cell as int] != digit by {
                if other[cell as int] == digit {
                    lemma_completion_survives_filling(input_playfield@, cell as int, other);
                    assert(completes(playfield@, other));
                }
            }
        } else {
            assert forall|other: Seq<i32>| #[trigger]
                completes(input_playfield@, other) implies other[cell as int] != digit by {
                lemma_completion_holds_candidate(input_playfield@, cell as int, other);
            }
        }
        digit += 1;
    }
    assert forall|other: Seq<i32>| !completes(input_playfield@, other) by {
        if completes(input_playfield@, other) {
            assert(1 <= other[cell as int] <= 9);
        }
    }
    proof {
        lemma_search_result_is_unique(input_playfield@, None);
    }
    None
}

} // verus!
