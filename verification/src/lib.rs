//! A verified 9x9 Sudoku solver.
//!
//! The [`sudoku`] module holds the solver itself: a validator for the row,
//! column, and box uniqueness constraints, and a backtracking search whose
//! contract states that the grid it returns solves the puzzle, that it is
//! the least solution in row-major lexicographic order, and that `None`
//! comes back only when no solution exists. The [`text`] module reads a
//! puzzle out of its two accepted textual forms and renders a solved grid
//! as plain or bordered text.

pub mod sudoku;
pub mod text;
