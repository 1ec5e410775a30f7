//! The board: 81 cells in row-major order, its rows, columns and blocks, and
//! the scan for the first empty cell.

use vstd::prelude::*;

verus! {

/// A 9x9 board in row-major order: the cell in row `r` and column `c` is at
/// index `r * 9 + c`. A cell holds 0 when it is empty, otherwise its digit.
pub type SudokuPlayfield = [i32; 81];

/// What `find_next_index` returns when the board has no empty cell.
pub const NO_MORE_VALUES: i32 = -1;

/// `i` is the index of a cell.
pub open spec fn is_cell(i: int) -> bool {
    0 <= i < 81
}

/// The row of cell `i`.
pub open spec fn row_of(i: int) -> int {
    i / 9
}

/// The column of cell `i`.
pub open spec fn col_of(i: int) -> int {
    i % 9
}

/// Cells `i` and `j` lie in the same 3x3 block.
pub open spec fn same_block(i: int, j: int) -> bool {
    row_of(i) / 3 == row_of(j) / 3 && col_of(i) / 3 == col_of(j) / 3
}

/// Cells `i` and `j` lie in a common row, column or block. Every cell shares
/// its units with itself.
pub open spec fn share_unit(i: int, j: int) -> bool {
    row_of(i) == row_of(j) || col_of(i) == col_of(j) || same_block(i, j)
}

/// Cells `i` and `j` are two different cells of a common row, column or block:
/// the pairs that may not hold the same digit.
pub open spec fn are_peers(i: int, j: int) -> bool {
    is_cell(i) && is_cell(j) && i != j && share_unit(i, j)
}

/// `cells` is a board: 81 cells, each empty or holding a digit from 1 to 9.
pub open spec fn is_grid(cells: Seq<i32>) -> bool {
    &&& cells.len() == 81
    &&& forall|i: int| is_cell(i) ==> 0 <= #[trigger] cells[i] <= 9
}

/// No filled cell of `cells` holds the same value as another cell of its
/// row, column or block.
pub open spec fn no_conflicts(cells: Seq<i32>) -> bool {
    forall|i: int, j: int|
        #![trigger cells[i], cells[j]]
        cells[i] != 0 && are_peers(i, j) ==> cells[i] != cells[j]
}

/// `cells` is a solved board: every cell holds a digit from 1 to 9, and no
/// row, column or block holds a digit twice.
pub open spec fn is_solved(cells: Seq<i32>) -> bool {
    &&& cells.len() == 81
    &&& forall|i: int| is_cell(i) ==> 1 <= #[trigger] cells[i] <= 9
    &&& no_conflicts(cells)
}

/// No cell of `cells` is empty.
pub open spec fn is_full(cells: Seq<i32>) -> bool {
    forall|i: int| 0 <= i < cells.len() ==> cells[i] != 0
}

/// `index` is the lowest index of an empty cell of `cells`.
pub open spec fn is_first_empty(cells: Seq<i32>, index: int) -> bool {
    &&& 0 <= index < cells.len()
    &&& cells[index] == 0
    &&& forall|j: int| 0 <= j < index ==> cells[j] != 0
}

/// The number of empty cells of `cells`.
pub open spec fn empty_count(cells: Seq<i32>) -> nat
    decreases cells.len(),
{
    if cells.len() == 0 {
        0
    } else if cells.last() == 0 {
        empty_count(cells.drop_last()) + 1
    } else {
        empty_count(cells.drop_last())
    }
}

/// Filling an empty cell with a digit leaves one empty cell fewer.
pub proof fn lemma_filling_lowers_empty_count(cells: Seq<i32>, index: int, digit: i32)
    requires
        0 <= index < cells.len(),
        cells[index] == 0,
        digit != 0,
    ensures
        empty_count(cells.update(index, digit)) + 1 == empty_count(cells),
    decreases cells.len(),
{
    let filled = cells.update(index, digit);
    if index == cells.len() - 1 {
        assert(filled.drop_last() =~= cells.drop_last());
    } else {
        assert(filled.drop_last() =~= cells.drop_last().update(index, digit));
        lemma_filling_lowers_empty_count(cells.drop_last(), index, digit);
    }
}

/// Scans the board in index order and returns the index of the first empty
/// cell, or `NO_MORE_VALUES` when every cell is filled.
pub fn find_next_index(playfield: SudokuPlayfield) -> (index: i32)
    ensures
        index == NO_MORE_VALUES <==> is_full(playfield@),
        index != NO_MORE_VALUES ==> is_first_empty(playfield@, index as int),
{
    let mut i: usize = 0;
    while i < 81
        invariant
            i <= 81,
            forall|j: int| 0 <= j < i ==> playfield@[j] != 0,
        decreases 81 - i,
    {
        if playfield[i] == 0 {
            return i as i32;
        }
        i += 1;
    }
    NO_MORE_VALUES
}

} // verus!
