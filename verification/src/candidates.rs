//! The digits that an empty cell may still take.

use std::collections::HashSet;
use vstd::prelude::*;
use vstd::std_specs::hash::*;
use crate::grid::{col_of, is_cell, row_of, share_unit, SudokuPlayfield};

verus! {

broadcast use group_hash_axioms;

/// `digit` is a candidate of cell `index`: the cell is empty, `digit` is one
/// of 1 to 9, and no cell of the row, the column and the block of the cell
/// holds it.
pub open spec fn is_candidate(cells: Seq<i32>, index: int, digit: i32) -> bool {
    &&& cells[index] == 0
    &&& 1 <= digit <= 9
    &&& forall|j: int| is_cell(j) && share_unit(index, j) ==> #[trigger] cells[j] != digit
}

/// The candidates of cell `index`. A filled cell has none.
pub open spec fn candidates(cells: Seq<i32>, index: int) -> Set<i32> {
    Set::new(|digit: i32| is_candidate(cells, index, digit))
}

/// No cell among `scanned` holds `digit`.
spec fn absent_from(cells: Seq<i32>, scanned: Set<int>, digit: i32) -> bool {
    forall|j: int| scanned.contains(j) ==> cells[j] != digit
}

/// The digits 1 to 9 that no cell among `scanned` holds.
spec fn digits_absent_from(cells: Seq<i32>, scanned: Set<int>) -> Set<i32> {
    Set::new(|digit: i32| 1 <= digit <= 9 && absent_from(cells, scanned, digit))
}

/// The cells of the row, the column and the block of cell `index`.
spec fn units_of(index: int) -> Set<int> {
    Set::new(|j: int| is_cell(j) && share_unit(index, j))
}

/// Cell `j` lies in one of the first `rows` rows of the block whose top-left
/// cell is in row `top` and column `left`.
spec fn block_rows_before(j: int, top: int, left: int, rows: int) -> bool {
    top <= row_of(j) < top + rows && left <= col_of(j) < left + 3
}

/// Scanning one more cell takes the digit it holds out of the digits that
/// are still absent.
proof fn lemma_scan_one_more(cells: Seq<i32>, scanned: Set<int>, j: int)
    ensures
        digits_absent_from(cells, scanned.insert(j)) == digits_absent_from(cells, scanned).remove(
            cells[j],
        ),
{
    let before = digits_absent_from(cells, scanned);
    let after = digits_absent_from(cells, scanned.insert(j));
    assert forall|digit: i32| after.contains(digit) == before.remove(cells[j]).contains(
        digit,
    ) by {
        if 1 <= digit <= 9 {
            if absent_from(cells, scanned.insert(j), digit) {
                assert(scanned.insert(j).contains(j));
                assert forall|k: int| scanned.contains(k) implies cells[k] != digit by {
                    assert(scanned.insert(j).contains(k));
                }
            }
        }
    }
    assert(after =~= before.remove(cells[j]));
}

/// Computes the candidates of cell `index`: starting from the digits 1 to 9,
/// every value found in the cell's row, then in its column, then in its
/// block is taken out. A filled cell has no candidates.
pub fn valid_options(index: usize, playfield: SudokuPlayfield) -> (options: HashSet<i32>)
    requires
        index < 81,
    ensures
        options@ == candidates(playfield@, index as int),
{
    let mut options: HashSet<i32> = HashSet::new();
    if playfield[index] == 0 {
        let mut digit: i32 = 1;
        while digit <= 9
            invariant
                1 <= digit <= 10,
                options@ == Set::new(|d: i32| 1 <= d < digit),
            decreases 10 - digit,
        {
            options.insert(digit);
            digit += 1;
            assert(options@ =~= Set::new(|d: i32| 1 <= d < digit));
        }
        let ghost mut scanned: Set<int> = Set::empty();
        assert(options@ =~= digits_absent_from(playfield@, scanned));

        let row: usize = index / 9;
        let col: usize = index % 9;

        let mut horizontal: usize = 0;
        while horizontal < 9
            invariant
                horizontal <= 9,
                row < 9,
                options@ == digits_absent_from(playfield@, scanned),
                scanned == Set::new(
                    |j: int| is_cell(j) && row_of(j) == row && col_of(j) < horizontal,
                ),
            decreases 9 - horizontal,
        {
            let value = playfield[row * 9 + horizontal];
            options.remove(&value);
            proof {
                lemma_scan_one_more(playfield@, scanned, row * 9 + horizontal);
                scanned = scanned.insert(row * 9 + horizontal);
            }
            horizontal += 1;
            assert(scanned =~= Set::new(
                |j: int| is_cell(j) && row_of(j) == row && col_of(j) < horizontal,
            ));
        }

        let mut vertical: usize = 0;
        assert(scanned =~= Set::new(
            |j: int| is_cell(j) && (row_of(j) == row || (col_of(j) == col && row_of(j) < vertical)),
        ));
        while vertical < 9
            invariant
                vertical <= 9,
                col < 9,
                options@ == digits_absent_from(playfield@, scanned),
                scanned == Set::new(
                    |j: int|
                        is_cell(j) && (row_of(j) == row || (col_of(j) == col && row_of(j)
                            < vertical)),
                ),
            decreases 9 - vertical,
        {
            let value = playfield[vertical * 9 + col];
            options.remove(&value);
            proof {
                lemma_scan_one_more(playfield@, scanned, vertical * 9 + col);
                scanned = scanned.insert(vertical * 9 + col);
            }
            vertical += 1;
            assert(scanned =~= Set::new(
                |j: int|
                    is_cell(j) && (row_of(j) == row || (col_of(j) == col && row_of(j) < vertical)),
            ));
        }

        let square_row: usize = row - row % 3;
        let square_col: usize = col - col % 3;

        let mut vertical: usize = 0;
        assert(scanned =~= Set::new(
            |j: int|
                is_cell(j) && (row_of(j) == row || col_of(j) == col || block_rows_before(
                    j,
                    square_row as int,
                    square_col as int,
                    vertical as int,
                )),
        ));
        while vertical < 3
            invariant
                vertical <= 3,
                square_row <= 6,
                square_col <= 6,
                options@ == digits_absent_from(playfield@, scanned),
                scanned == Set::new(
                    |j: int|
                        is_cell(j) && (row_of(j) == row || col_of(j) == col || block_rows_before(
                            j,
                            square_row as int,
                            square_col as int,
                            vertical as int,
                        )),
                ),
            decreases 3 - vertical,
        {
            let mut horizontal: usize = 0;
            let ghost row_start = scanned;
            while horizontal < 3
                invariant
                    horizontal <= 3,
                    vertical < 3,
                    square_row <= 6,
                    square_col <= 6,
                    options@ == digits_absent_from(playfield@, scanned),
                    scanned == row_start.union(
                        Set::new(
                            |j: int|
                                row_of(j) == square_row + vertical && square_col <= col_of(j)
                                    < square_col + horizontal,
                        ),
                    ),
                decreases 3 - horizontal,
            {
                let value = playfield[(square_row + vertical) * 9 + (square_col + horizontal)];
                options.remove(&value);
                proof {
                    let j = (square_row + vertical) * 9 + (square_col + horizontal);
                    lemma_scan_one_more(playfield@, scanned, j);
                    scanned = scanned.insert(j);
                }
                horizontal += 1;
                assert(scanned =~= row_start.union(
                    Set::new(
                        |j: int|
                            row_of(j) == square_row + vertical && square_col <= col_of(j)
                                < square_col + horizontal,
                    ),
                ));
            }
            vertical += 1;
            assert(scanned =~= Set::new(
                |j: int|
                    is_cell(j) && (row_of(j) == row || col_of(j) == col || block_rows_before(
                        j,
                        square_row as int,
                        square_col as int,
                        vertical as int,
                    )),
            ));
        }
        assert(scanned =~= units_of(index as int));
        assert(options@ =~= candidates(playfield@, index as int)) by {
            assert forall|digit: i32|
                absent_from(playfield@, scanned, digit) <==> (forall|j: int|
                    is_cell(j) && share_unit(index as int, j) ==> #[trigger] playfield@[j]
                        != digit) by {
                if absent_from(playfield@, scanned, digit) {
                    assert forall|j: int|
                        is_cell(j) && share_unit(index as int, j) implies #[trigger] playfield@[j]
                        != digit by {
                        assert(scanned.contains(j));
                    }
                }
            }
        }
    } else {
        assert(options@ =~= candidates(playfield@, index as int));
    }
    options
}

} // verus!
