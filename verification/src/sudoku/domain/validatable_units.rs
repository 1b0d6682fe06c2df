//! Groups of cells, and whether they break the rule or are complete.

use super::cell::CellView;
use super::cell_grid::CellGrid;
use vstd::prelude::*;

verus! {

/// Whether every index of the group names a cell.
pub open spec fn group_in_bounds(group: Seq<usize>, cells: Seq<CellView>) -> bool {
    forall|i: int| 0 <= i < group.len() ==> #[trigger] group[i] < cells.len()
}

/// Whether the group names the cell at `index`.
pub open spec fn group_has(group: Seq<usize>, index: int) -> bool {
    exists|k: int| 0 <= k < group.len() && #[trigger] group[k] == index
}

/// Whether each group names cells of the grid, none of them twice.
pub open spec fn groups_wf(groups: Seq<Seq<usize>>, cells: Seq<CellView>) -> bool {
    forall|n: int|
        0 <= n < groups.len() ==> group_in_bounds(#[trigger] groups[n], cells)
            && groups[n].no_duplicates()
}

/// The index lists of some groups.
pub open spec fn group_views(groups: Seq<CellGroup>) -> Seq<Seq<usize>> {
    groups.map_values(|group: CellGroup| group.cells@)
}

/// No two cells of the group are settled on the same value.
pub open spec fn group_is_valid(cells: Seq<CellView>, group: Seq<usize>) -> bool {
    forall|i: int, j: int|
        0 <= i < j < group.len() && cells[#[trigger] group[i] as int].value is Some
            ==> cells[group[i] as int].value != cells[#[trigger] group[j] as int].value
}

/// Every cell of the group is settled.
pub open spec fn group_is_settled(cells: Seq<CellView>, group: Seq<usize>) -> bool {
    forall|i: int| 0 <= i < group.len() ==> cells[#[trigger] group[i] as int].value is Some
}

/// Every cell of the group is settled, no two on the same value.
pub open spec fn group_is_complete(cells: Seq<CellView>, group: Seq<usize>) -> bool {
    group_is_valid(cells, group) && group_is_settled(cells, group)
}

/// Answers whether a whole puzzle breaks no rule, and whether it is solved.
pub trait PuzzleValidator {
    /// What the puzzle's own invariant is.
    spec fn well_formed(&self) -> bool;

    /// No row, column or block holds a value twice.
    spec fn valid(&self) -> bool;

    /// Every row, column and block is complete.
    spec fn complete(&self) -> bool;

    fn is_valid(&self) -> (valid: bool)
        requires
            self.well_formed(),
        ensures
            valid == self.valid(),
    ;

    fn is_complete(&self) -> (complete: bool)
        requires
            self.well_formed(),
        ensures
            complete == self.complete(),
    ;
}

/// Answers whether a group of cells breaks no rule, and whether it is solved.
pub trait CellGroupValidator {
    fn is_valid(&self, cells: &CellGroup, grid: &CellGrid) -> (valid: bool)
        requires
            group_in_bounds(cells.cells@, grid@),
        ensures
            valid == group_is_valid(grid@, cells.cells@),
    ;

    fn is_complete(&self, cells: &CellGroup, grid: &CellGrid) -> (complete: bool)
        requires
            group_in_bounds(cells.cells@, grid@),
        ensures
            complete == group_is_complete(grid@, cells.cells@),
    ;
}

/// Checks groups of cells against the rule.  It holds nothing.
pub struct UnitValidator {}

impl UnitValidator {
    /// The validator: there is one only, as it holds nothing.
    pub fn new() -> Self {
        Self {  }
    }
}

impl CellGroupValidator for UnitValidator {
    fn is_valid(&self, cell_group: &CellGroup, grid: &CellGrid) -> (valid: bool) {
        let count = cell_group.cells.len();
        let mut i: usize = 0;
        while i < count
            invariant
                count == cell_group.cells@.len(),
                i <= count,
                group_in_bounds(cell_group.cells@, grid@),
                forall|a: int, b: int|
                    0 <= a < b < count && a < i
                        && grid@[#[trigger] cell_group.cells@[a] as int].value is Some
                        ==> grid@[cell_group.cells@[a] as int].value
                            != grid@[#[trigger] cell_group.cells@[b] as int].value,
            decreases count - i,
        {
            if let Some(value) = grid.grid[cell_group.cells[i]].value {
                let mut j: usize = i + 1;
                while j < count
                    invariant
                        count == cell_group.cells@.len(),
                        i < j <= count,
                        group_in_bounds(cell_group.cells@, grid@),
                        grid@[cell_group.cells@[i as int] as int].value == Some(value),
                        forall|b: int|
                            i < b < j
                                ==> grid@[#[trigger] cell_group.cells@[b] as int].value
                                != Some(value),
                    decreases count - j,
                {
                    match grid.grid[cell_group.cells[j]].value {
                        Some(other) => {
                            if other == value {
                                return false;
                            }
                        },
                        None => {},
                    }
                    j += 1;
                }
            }
            i += 1;
        }
        true
    }

    fn is_complete(&self, cell_group: &CellGroup, grid: &CellGrid) -> (complete: bool) {
        if !self.is_valid(cell_group, grid) {
            return false;
        }
        let count = cell_group.cells.len();
        let mut i: usize = 0;
        while i < count
            invariant
                count == cell_group.cells@.len(),
                i <= count,
                group_in_bounds(cell_group.cells@, grid@),
                forall|a: int|
                    0 <= a < i ==> grid@[#[trigger] cell_group.cells@[a] as int].value is Some,
            decreases count - i,
        {
            if grid.grid[cell_group.cells[i]].value.is_none() {
                return false;
            }
            i += 1;
        }
        true
    }
}

/// Some cells of the grid, by their indices, that may not hold a value twice.
pub struct CellGroup {
    pub cells: Vec<usize>,
}

impl CellGroup {
    pub fn new(cells: Vec<usize>) -> (group: Self)
        ensures
            group.cells == cells,
    {
        Self { cells }
    }
}

} // verus!
