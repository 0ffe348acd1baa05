//! A wave-function-collapse style generator for 9x9 Sudoku grids.
//!
//! Each cell keeps the set of values still possible for its position.
//! The grid repeatedly collapses the most constrained cell to a single
//! value and propagates that choice to every cell sharing a row, column
//! or box, restarting from a fresh grid whenever a contradiction arises.

pub mod cell;
pub mod grid;
pub mod peers;
mod rng;

pub use cell::Cell;
pub use grid::Grid;
