//! What holds of every search: statements about `solution_of`, which is
//! what `solve_sudoku` returns.

use vstd::prelude::*;
use crate::grid::{are_peers, is_cell, is_full, is_grid, is_solved, no_conflicts};
use crate::solver::{
    completes, is_search_result, lemma_full_board_is_its_least_completion,
    lemma_search_result_is_unique, lemma_solution_of, solution_of,
};

verus! {

/// `filled` is a solved board that keeps every filled cell of `clues`.
pub open spec fn is_valid_completion(clues: Seq<i32>, filled: Seq<i32>) -> bool {
    &&& clues.len() == 81
    &&& is_solved(filled)
    &&& forall|i: int| is_cell(i) && clues[i] != 0 ==> #[trigger] filled[i] == clues[i]
}

/// A valid completion is a completion as the search understands it, whatever
/// the clues are.
pub proof fn lemma_valid_completion_completes(clues: Seq<i32>, filled: Seq<i32>)
    requires
        is_valid_completion(clues, filled),
    ensures
        completes(clues, filled),
{
    assert forall|i: int, j: int|
        #![trigger filled[i], filled[j]]
        is_cell(i) && clues[i] == 0 && are_peers(i, j) implies filled[i] != filled[j] by {
        assert(1 <= filled[i] <= 9);
    }
}

/// On a board whose clues are digits and do not clash, whatever completes
/// the board as the search understands it is a valid completion.
pub proof fn lemma_completion_of_sound_clues_is_valid(clues: Seq<i32>, filled: Seq<i32>)
    requires
        is_grid(clues),
        no_conflicts(clues),
        completes(clues, filled),
    ensures
        is_valid_completion(clues, filled),
{
    assert forall|i: int| is_cell(i) implies 1 <= #[trigger] filled[i] <= 9 by {
        if clues[i] != 0 {
            assert(filled[i] == clues[i]);
            assert(0 <= clues[i] <= 9);
        }
    }
    assert forall|i: int, j: int|
        #![trigger filled[i], filled[j]]
        filled[i] != 0 && are_peers(i, j) implies filled[i] != filled[j] by {
        if clues[i] == 0 {
        } else if clues[j] == 0 {
            assert(are_peers(j, i));
            assert(filled[j] != filled[i]);
        } else {
            assert(filled[i] == clues[i]);
            assert(filled[j] == clues[j]);
            assert(clues[i] != clues[j]);
        }
    }
}

/// Where the clues do not clash, no filled cell of the solution holds the
/// same digit as another cell of its row, column or block.
pub proof fn lemma_solution_has_no_conflicts(clues: Seq<i32>, solved: Seq<i32>)
    requires
        no_conflicts(clues),
        solution_of(clues) == Some(solved),
    ensures
        no_conflicts(solved),
{
    lemma_solution_of(clues);
    assert forall|i: int, j: int|
        #![trigger solved[i], solved[j]]
        solved[i] != 0 && are_peers(i, j) implies solved[i] != solved[j] by {
        if clues[i] == 0 {
        } else if clues[j] == 0 {
            assert(are_peers(j, i));
            assert(solved[j] != solved[i]);
        } else {
            assert(solved[i] == clues[i]);
            assert(solved[j] == clues[j]);
            assert(clues[i] != clues[j]);
        }
    }
}

/// The solution keeps every clue: a cell that the input fills holds the
/// same value in the solution.
pub proof fn lemma_solution_keeps_clues(clues: Seq<i32>, solved: Seq<i32>)
    requires
        solution_of(clues) == Some(solved),
    ensures
        solved.len() == 81,
        forall|i: int| is_cell(i) && clues[i] != 0 ==> #[trigger] solved[i] == clues[i],
{
    lemma_solution_of(clues);
}

/// Every cell of the solution of a board holds a digit from 1 to 9.
pub proof fn lemma_solution_holds_digits(clues: Seq<i32>, solved: Seq<i32>)
    requires
        is_grid(clues),
        solution_of(clues) == Some(solved),
    ensures
        is_full(solved),
        forall|i: int| is_cell(i) ==> 1 <= #[trigger] solved[i] <= 9,
{
    lemma_solution_of(clues);
    assert forall|i: int| is_cell(i) implies 1 <= #[trigger] solved[i] <= 9 by {
        if clues[i] != 0 {
            assert(solved[i] == clues[i]);
            assert(0 <= clues[i] <= 9);
        }
    }
}

/// A board that has a valid completion has a solution: the search does not
/// report it as unsolvable.
pub proof fn lemma_solvable_board_has_solution(clues: Seq<i32>, completion: Seq<i32>)
    requires
        is_valid_completion(clues, completion),
    ensures
        solution_of(clues) is Some,
{
    lemma_valid_completion_completes(clues, completion);
}

/// A board without a valid completion has no solution, provided that the
/// search cannot be misled on it: that whatever completes the board as the
/// search understands it is a valid completion. Boards whose clues are
/// digits and do not clash are of that kind, by
/// `lemma_completion_of_sound_clues_is_valid`.
pub proof fn lemma_unsolvable_board_has_no_solution(clues: Seq<i32>)
    requires
        forall|filled: Seq<i32>| !is_valid_completion(clues, filled),
        forall|filled: Seq<i32>| #[trigger]
            completes(clues, filled) ==> is_valid_completion(clues, filled),
    ensures
        solution_of(clues) is None,
{
}

/// A board without empty cells is its own solution.
pub proof fn lemma_full_board_is_its_solution(clues: Seq<i32>)
    requires
        clues.len() == 81,
        is_full(clues),
    ensures
        solution_of(clues) == Some(clues),
{
    lemma_full_board_is_its_least_completion(clues);
    lemma_search_result_is_unique(clues, Some(clues));
}

/// Two searches of one board return the same: both results meet the
/// contract of the search, and that leaves room for one only.
pub proof fn lemma_search_is_deterministic(
    clues: Seq<i32>,
    first: Option<Seq<i32>>,
    second: Option<Seq<i32>>,
)
    requires
        is_search_result(clues, first),
        is_search_result(clues, second),
    ensures
        first == second,
{
    lemma_search_result_is_unique(clues, first);
    lemma_search_result_is_unique(clues, second);
}

} // verus!
