//! The older name of a puzzle.

use super::puzzle::Puzzle;
use vstd::prelude::*;

verus! {

/// A game of sudoku is a puzzle being solved.
pub type Game = Puzzle;

} // verus!
