//! The measures of the grid.

use vstd::prelude::*;

verus! {

/// Number of cells along one side of the grid.
pub const PUZZLE_DIMENTION: usize = 9;

/// Largest value a cell can take; the smallest is 1.
pub const PUZZLE_MAXIMUM_VALUE: u8 = 9;

/// Number of columns that one block spans.
pub const PUZZLE_BLOCK_WIDTH: usize = 3;

/// Number of rows that one block spans.
pub const PUZZLE_BLOCK_HEIGHT: usize = 3;

/// Number of cells in the grid.
pub const PUZZLE_TOTAL_CELL_COUNT: usize = 81;

} // verus!
