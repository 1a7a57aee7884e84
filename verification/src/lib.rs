//! A 9x9 Sudoku solver: a fixed 81-cell board, a row/column/box uniqueness
//! checker, and a deterministic depth-first backtracking search.

pub mod grid;
pub mod solver;

pub use grid::Board;
pub use grid::Cell;
pub use grid::Position;
pub use solver::first_empty_cell;
pub use solver::is_digit_valid_here;
pub use solver::solve_sudoku;
