//! A backtracking solver for 9x9 Sudoku grids, with machine-checked contracts.
//!
//! A [`board::Board`] holds the grid. [`board::Board::solve`] fills its empty
//! cells in row-major order, each with the smallest digit that leads to a
//! completion, and undoes what it tried when there is none.

pub mod ascending;
pub mod board;
pub mod candidates;
pub mod fill;
pub mod geometry;
pub mod render;
pub mod rules;
pub mod solver;
