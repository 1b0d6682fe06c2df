//! A puzzle: the grid with its rows, columns and blocks.

use super::cell::CellView;
use super::cell_grid::{lemma_settled_count_push, seed_cells, settled_count, CellGrid, SeedGrid};
use super::consts::{
    PUZZLE_BLOCK_HEIGHT, PUZZLE_BLOCK_WIDTH, PUZZLE_DIMENTION, PUZZLE_TOTAL_CELL_COUNT,
};
use super::units::{
    block_indices, column_indices, get_block, get_column, get_row, is_unit, lemma_unit_number,
    lemma_unit_shape, row_indices,
};
use super::validatable_units::{
    group_in_bounds, group_is_complete, group_is_valid, CellGroup, CellGroupValidator,
    PuzzleValidator, UnitValidator,
};
use vstd::prelude::*;

verus! {

/// No unit holds a value twice.
pub open spec fn puzzle_is_valid(cells: Seq<CellView>) -> bool {
    forall|group: Seq<usize>| #[trigger] is_unit(group) ==> group_is_valid(cells, group)
}

/// Every cell is settled and no unit holds a value twice.
pub open spec fn puzzle_is_complete(cells: Seq<CellView>) -> bool {
    forall|group: Seq<usize>| #[trigger] is_unit(group) ==> group_is_complete(cells, group)
}

/// The nine rows, the nine columns and the nine blocks, in order.
pub open spec fn units_in_place(
    rows: Seq<CellGroup>,
    columns: Seq<CellGroup>,
    blocks: Seq<CellGroup>,
) -> bool {
    &&& rows.len() == PUZZLE_DIMENTION
    &&& columns.len() == PUZZLE_DIMENTION
    &&& blocks.len() == PUZZLE_DIMENTION
    &&& forall|n: int| 0 <= n < PUZZLE_DIMENTION ==> (#[trigger] rows[n]).cells@ == row_indices(n)
    &&& forall|n: int|
        0 <= n < PUZZLE_DIMENTION ==> (#[trigger] columns[n]).cells@ == column_indices(n)
    &&& forall|n: int|
        0 <= n < PUZZLE_DIMENTION ==> (#[trigger] blocks[n]).cells@ == block_indices(n)
}

/// The two families hold the same groups in the same order.
pub open spec fn same_groups(one: Seq<CellGroup>, other: Seq<CellGroup>) -> bool {
    &&& one.len() == other.len()
    &&& forall|n: int| 0 <= n < one.len() ==> (#[trigger] one[n]).cells@ == other[n].cells@
}

/// A grid of cells with its rows, columns and blocks.
pub struct Puzzle {
    pub cell_grid: CellGrid,
    pub rows: Vec<CellGroup>,
    pub columns: Vec<CellGroup>,
    pub blocks: Vec<CellGroup>,
    pub unit_validator: UnitValidator,
}

impl View for Puzzle {
    type V = Seq<CellView>;

    open spec fn view(&self) -> Seq<CellView> {
        self.cell_grid@
    }
}

impl Puzzle {
    /// The invariant of a puzzle: the grid keeps its own, and the groups are
    /// the rows, columns and blocks of the grid.
    pub open spec fn wf(&self) -> bool {
        &&& self.cell_grid.wf()
        &&& units_in_place(self.rows@, self.columns@, self.blocks@)
    }

    /// A puzzle with no cell settled.
    pub fn default() -> (puzzle: Self)
        ensures
            puzzle@ == Seq::new(PUZZLE_TOTAL_CELL_COUNT as nat, |i: int| CellView::fresh()),
            puzzle.wf(),
    {
        Self::from_grid(CellGrid::new())
    }

    /// A puzzle whose cells are settled where the seed holds a domain value.
    pub fn new(seed: &SeedGrid) -> (puzzle: Self)
        ensures
            puzzle@ == seed_cells(*seed),
            puzzle.wf(),
    {
        Self::from_grid(CellGrid::from_seed(seed))
    }

    fn from_grid(cell_grid: CellGrid) -> (puzzle: Self)
        requires
            cell_grid.wf(),
        ensures
            puzzle.cell_grid == cell_grid,
            puzzle.wf(),
    {
        let mut rows: Vec<CellGroup> = Vec::new();
        let mut columns: Vec<CellGroup> = Vec::new();
        let mut n: usize = 0;
        while n < PUZZLE_DIMENTION
            invariant
                n <= PUZZLE_DIMENTION,
                rows@.len() == n,
                columns@.len() == n,
                forall|i: int| 0 <= i < n ==> (#[trigger] rows@[i]).cells@ == row_indices(i),
                forall|i: int| 0 <= i < n ==> (#[trigger] columns@[i]).cells@ == column_indices(i),
            decreases PUZZLE_DIMENTION - n,
        {
            rows.push(get_row(n));
            columns.push(get_column(n));
            n += 1;
        }
        let mut blocks: Vec<CellGroup> = Vec::new();
        let mut x: usize = 0;
        while x < PUZZLE_BLOCK_HEIGHT
            invariant
                x <= PUZZLE_BLOCK_HEIGHT,
                blocks@.len() == x * PUZZLE_BLOCK_WIDTH,
                forall|i: int|
                    0 <= i < blocks@.len() ==> (#[trigger] blocks@[i]).cells@ == block_indices(i),
            decreases PUZZLE_BLOCK_HEIGHT - x,
        {
            let mut y: usize = 0;
            while y < PUZZLE_BLOCK_WIDTH
                invariant
                    x < PUZZLE_BLOCK_HEIGHT,
                    y <= PUZZLE_BLOCK_WIDTH,
                    blocks@.len() == x * PUZZLE_BLOCK_WIDTH + y,
                    forall|i: int|
                        0 <= i < blocks@.len() ==> (#[trigger] blocks@[i]).cells@ == block_indices(
                            i,
                        ),
                decreases PUZZLE_BLOCK_WIDTH - y,
            {
                blocks.push(get_block(x, y));
                y += 1;
            }
            x += 1;
        }
        Self { cell_grid, rows, columns, blocks, unit_validator: UnitValidator::new() }
    }

    /// How many cells are settled.
    pub fn count_cells_with_value(&self) -> (count: usize)
        ensures
            count == settled_count(self@),
    {
        let mut count: usize = 0;
        let mut i: usize = 0;
        proof {
            lemma_settled_count_push(Seq::empty(), CellView::fresh());
            assert(self@.take(0) =~= Seq::empty());
        }
        while i < self.cell_grid.grid.len()
            invariant
                i <= self.cell_grid.grid.len(),
                count == settled_count(self@.take(i as int)),
                count <= i,
            decreases self.cell_grid.grid.len() - i,
        {
            proof {
                assert(self@.take(i + 1) =~= self@.take(i as int).push(self@[i as int]));
                lemma_settled_count_push(self@.take(i as int), self@[i as int]);
            }
            if self.cell_grid.grid[i].value.is_some() {
                count += 1;
            }
            i += 1;
        }
        assert(self@.take(i as int) =~= self@);
        count
    }
}

impl Clone for Puzzle {
    /// A copy that shares no cell with the puzzle: what is done to one cannot
    /// be seen in the other.
    fn clone(&self) -> (copy: Self)
        ensures
            copy@ == self@,
            same_groups(copy.rows@, self.rows@),
            same_groups(copy.columns@, self.columns@),
            same_groups(copy.blocks@, self.blocks@),
            self.wf() ==> copy.wf(),
    {
        let cloned_cell_grid = self.cell_grid.clone();
        Self {
            cell_grid: cloned_cell_grid,
            rows: copy_groups(&self.rows),
            columns: copy_groups(&self.columns),
            blocks: copy_groups(&self.blocks),
            unit_validator: UnitValidator::new(),
        }
    }
}

fn copy_groups(groups: &Vec<CellGroup>) -> (copy: Vec<CellGroup>)
    ensures
        same_groups(copy@, groups@),
{
    let mut copy: Vec<CellGroup> = Vec::new();
    let mut n: usize = 0;
    while n < groups.len()
        invariant
            n <= groups.len(),
            copy@.len() == n,
            forall|i: int| 0 <= i < n ==> (#[trigger] copy@[i]).cells@ == groups@[i].cells@,
        decreases groups.len() - n,
    {
        copy.push(CellGroup::new(groups[n].cells.clone()));
        n += 1;
    }
    copy
}

/// Whether every group of a family is valid.
fn all_valid(validator: &UnitValidator, groups: &Vec<CellGroup>, grid: &CellGrid) -> (valid: bool)
    requires
        forall|n: int|
            0 <= n < groups@.len() ==> group_in_bounds((#[trigger] groups@[n]).cells@, grid@),
    ensures
        valid == forall|n: int|
            0 <= n < groups@.len() ==> group_is_valid(grid@, (#[trigger] groups@[n]).cells@),
{
    let mut n: usize = 0;
    while n < groups.len()
        invariant
            n <= groups.len(),
            forall|i: int|
                0 <= i < groups@.len() ==> group_in_bounds((#[trigger] groups@[i]).cells@, grid@),
            forall|i: int| 0 <= i < n ==> group_is_valid(grid@, (#[trigger] groups@[i]).cells@),
        decreases groups.len() - n,
    {
        if !validator.is_valid(&groups[n], grid) {
            return false;
        }
        n += 1;
    }
    true
}

/// Whether every group of a family is complete.
fn all_complete(validator: &UnitValidator, groups: &Vec<CellGroup>, grid: &CellGrid) -> (complete:
    bool)
    requires
        forall|n: int|
            0 <= n < groups@.len() ==> group_in_bounds((#[trigger] groups@[n]).cells@, grid@),
    ensures
        complete == forall|n: int|
            0 <= n < groups@.len() ==> group_is_complete(grid@, (#[trigger] groups@[n]).cells@),
{
    let mut n: usize = 0;
    while n < groups.len()
        invariant
            n <= groups.len(),
            forall|i: int|
                0 <= i < groups@.len() ==> group_in_bounds((#[trigger] groups@[i]).cells@, grid@),
            forall|i: int| 0 <= i < n ==> group_is_complete(grid@, (#[trigger] groups@[i]).cells@),
        decreases groups.len() - n,
    {
        if !validator.is_complete(&groups[n], grid) {
            return false;
        }
        n += 1;
    }
    true
}

/// With the units in place, the families hold exactly the units.
pub proof fn lemma_units_in_place(
    rows: Seq<CellGroup>,
    columns: Seq<CellGroup>,
    blocks: Seq<CellGroup>,
    cells: Seq<CellView>,
)
    requires
        units_in_place(rows, columns, blocks),
        cells.len() == PUZZLE_TOTAL_CELL_COUNT,
    ensures
        forall|n: int| 0 <= n < rows.len() ==> is_unit((#[trigger] rows[n]).cells@),
        forall|n: int| 0 <= n < columns.len() ==> is_unit((#[trigger] columns[n]).cells@),
        forall|n: int| 0 <= n < blocks.len() ==> is_unit((#[trigger] blocks[n]).cells@),
        forall|n: int| 0 <= n < rows.len() ==> group_in_bounds((#[trigger] rows[n]).cells@, cells),
        forall|n: int|
            0 <= n < columns.len() ==> group_in_bounds((#[trigger] columns[n]).cells@, cells),
        forall|n: int|
            0 <= n < blocks.len() ==> group_in_bounds((#[trigger] blocks[n]).cells@, cells),
        forall|group: Seq<usize>|
            is_unit(group) ==> exists|n: int|
                0 <= n < PUZZLE_DIMENTION && (group == (#[trigger] rows[n]).cells@ || group
                    == columns[n].cells@ || group == blocks[n].cells@),
{
    assert forall|n: int| 0 <= n < rows.len() implies is_unit((#[trigger] rows[n]).cells@)
        && group_in_bounds(rows[n].cells@, cells) by {
        assert(rows[n].cells@ == row_indices(n));
        lemma_unit_shape(rows[n].cells@);
    }
    assert forall|n: int| 0 <= n < columns.len() implies is_unit((#[trigger] columns[n]).cells@)
        && group_in_bounds(columns[n].cells@, cells) by {
        assert(columns[n].cells@ == column_indices(n));
        lemma_unit_shape(columns[n].cells@);
    }
    assert forall|n: int| 0 <= n < blocks.len() implies is_unit((#[trigger] blocks[n]).cells@)
        && group_in_bounds(blocks[n].cells@, cells) by {
        assert(blocks[n].cells@ == block_indices(n));
        lemma_unit_shape(blocks[n].cells@);
    }
    assert forall|group: Seq<usize>| is_unit(group) implies exists|n: int|
        0 <= n < PUZZLE_DIMENTION && (group == (#[trigger] rows[n]).cells@ || group
            == columns[n].cells@ || group == blocks[n].cells@) by {
        let n = lemma_unit_number(group);
        assert(rows[n].cells@ == row_indices(n));
        assert(columns[n].cells@ == column_indices(n));
        assert(blocks[n].cells@ == block_indices(n));
    }
}

impl PuzzleValidator for Puzzle {
    open spec fn well_formed(&self) -> bool {
        self.wf()
    }

    open spec fn valid(&self) -> bool {
        puzzle_is_valid(self@)
    }

    open spec fn complete(&self) -> bool {
        puzzle_is_complete(self@)
    }

    fn is_valid(&self) -> (valid: bool) {
        proof {
            lemma_units_in_place(self.rows@, self.columns@, self.blocks@, self@);
        }
        all_valid(&self.unit_validator, &self.rows, &self.cell_grid) && all_valid(
            &self.unit_validator,
            &self.columns,
            &self.cell_grid,
        ) && all_valid(&self.unit_validator, &self.blocks, &self.cell_grid)
    }

    fn is_complete(&self) -> (complete: bool) {
        proof {
            lemma_units_in_place(self.rows@, self.columns@, self.blocks@, self@);
        }
        all_complete(&self.unit_validator, &self.rows, &self.cell_grid) && all_complete(
            &self.unit_validator,
            &self.columns,
            &self.cell_grid,
        ) && all_complete(&self.unit_validator, &self.blocks, &self.cell_grid)
    }
}

} // verus!
