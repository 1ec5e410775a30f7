//! A backtracking solver for 9x9 Sudoku grids, with its behaviour stated in
//! contracts and proved.

pub mod candidates;
pub mod display;
pub mod grid;
pub mod guarantees;
pub mod solver;
pub mod unsolvable;
