//! A 9x9 Sudoku solver: depth-first search over candidate sets with
//! constraint propagation, plus the buffer encoding used to hand boards
//! to a parallel brute-force backend.

pub mod board;
pub mod candidates;
pub mod solver;
pub mod parallel;
