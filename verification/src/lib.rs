//! A Sudoku puzzle generator: a randomised solved 9x9 grid, a solution counter
//! that stops at two, and a carver that clears cells while the puzzle keeps
//! exactly one solution.

pub mod grid;
pub mod completion;
pub mod shuffle;
pub mod text;
pub mod generator;
pub mod global_board;
