//! A sudoku solver whose propagation and search are proved sound and complete.
//!
//! The grid is an arena of cells addressed by index; rows, columns and blocks
//! are lists of indices into it.  Every solving technique states exactly what
//! it does to the candidates of each cell, and the search states that it finds
//! a solution whenever one exists.

pub mod pretty;
pub mod sudoku;
