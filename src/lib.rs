//! A backtracking Sudoku solver with a most-constrained-cell heuristic,
//! for boards of side `N = B * B` made of `B x B` blocks.
pub mod model;
pub mod grid;
pub mod laws;
pub mod text;
