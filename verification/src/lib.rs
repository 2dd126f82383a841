//! A 9x9 sudoku solver: a board with constant-time legality checks backed by
//! per-row, per-column and per-block used-digit sets, and an exhaustive
//! depth-first backtracking search that enumerates every valid completion.

pub mod board;
pub mod load;
pub mod render;
pub mod rules;
pub mod solver;
