//! The grid: all cells of a puzzle, held in one row-major list.

use super::cell::{Cell, CellView};
use super::consts::{PUZZLE_DIMENTION, PUZZLE_TOTAL_CELL_COUNT};
use vstd::prelude::*;

verus! {

/// One row of seed values, `None` where the cell is empty.
pub type SeedRow = [Option<u8>; 9];

/// The seed values of a puzzle, row by row.
pub type SeedGrid = [SeedRow; 9];

/// The cell that a seed value stands for.
pub open spec fn seed_cell(value: Option<u8>) -> CellView {
    match value {
        Some(v) => CellView::fresh().set_value(v),
        None => CellView::fresh(),
    }
}

/// The cells that a seed grid stands for, row-major.
pub open spec fn seed_cells(seed: SeedGrid) -> Seq<CellView> {
    Seq::new(
        PUZZLE_TOTAL_CELL_COUNT as nat,
        |i: int| seed_cell(seed@[i / PUZZLE_DIMENTION as int]@[i % PUZZLE_DIMENTION as int]),
    )
}

/// Whether every cell keeps its invariant and there are as many as a grid has.
pub open spec fn cells_wf(cells: Seq<CellView>) -> bool {
    &&& cells.len() == PUZZLE_TOTAL_CELL_COUNT
    &&& forall|i: int| 0 <= i < cells.len() ==> (#[trigger] cells[i]).wf()
}

/// How many of the cells are settled.
pub open spec fn settled_count(cells: Seq<CellView>) -> nat {
    cells.filter(|cell: CellView| cell.value is Some).len()
}

/// Counting one more cell.
pub proof fn lemma_settled_count_push(cells: Seq<CellView>, cell: CellView)
    ensures
        settled_count(cells.push(cell)) == settled_count(cells) + if cell.value is Some {
            1nat
        } else {
            0nat
        },
        settled_count(Seq::<CellView>::empty()) == 0,
        settled_count(cells) <= cells.len(),
{
    reveal(Seq::filter);
    assert(cells.push(cell).drop_last() =~= cells);
    cells.lemma_filter_len(|cell: CellView| cell.value is Some);
}

/// Where every settled cell stays settled, the count of settled cells does
/// not fall; where it stays the same, the same cells are settled.
pub proof fn lemma_settled_count_monotonic(before: Seq<CellView>, after: Seq<CellView>)
    requires
        before.len() == after.len(),
        forall|i: int|
            0 <= i < before.len() && (#[trigger] before[i]).value is Some
                ==> after[i].value is Some,
    ensures
        settled_count(before) <= settled_count(after),
        settled_count(after) <= after.len(),
        settled_count(before) == settled_count(after) ==> forall|i: int|
            0 <= i < before.len()
                ==> ((#[trigger] before[i]).value is Some <==> after[i].value is Some),
    decreases before.len(),
{
    if before.len() == 0 {
        lemma_settled_count_push(before, CellView::fresh());
        assert(before =~= Seq::empty());
        assert(after =~= Seq::empty());
    } else {
        let b = before.drop_last();
        let a = after.drop_last();
        assert forall|i: int|
            0 <= i < b.len() && (#[trigger] b[i]).value is Some implies a[i].value is Some by {
            assert(before[i].value is Some);
        }
        lemma_settled_count_monotonic(b, a);
        lemma_settled_count_push(b, before.last());
        lemma_settled_count_push(a, after.last());
        assert(before =~= b.push(before.last()));
        assert(after =~= a.push(after.last()));
        assert(before[before.len() - 1].value is Some ==> after[after.len() - 1].value is Some);
        if settled_count(before) == settled_count(after) {
            assert forall|i: int|
                0 <= i < before.len() implies ((#[trigger] before[i]).value is Some
                <==> after[i].value is Some) by {
                if i < b.len() {
                    assert(b[i] == before[i]);
                    assert(a[i] == after[i]);
                }
            }
        }
    }
}

/// All cells of a puzzle, row-major: the cell in row `r` and column `c` is at
/// index `9 * r + c`.
pub struct CellGrid {
    pub grid: Vec<Cell>,
}

impl View for CellGrid {
    type V = Seq<CellView>;

    open spec fn view(&self) -> Seq<CellView> {
        self.grid@.map_values(|cell: Cell| cell@)
    }
}

impl CellGrid {
    /// The invariant of a grid: 81 cells, each with its own invariant.
    pub open spec fn wf(&self) -> bool {
        cells_wf(self@)
    }

    /// A grid of unsettled cells.
    pub fn new() -> (grid: Self)
        ensures
            grid@ == Seq::new(PUZZLE_TOTAL_CELL_COUNT as nat, |i: int| CellView::fresh()),
            grid.wf(),
    {
        let grid = CellGrid { grid: empty_grid() };
        assert(grid@ =~= Seq::new(PUZZLE_TOTAL_CELL_COUNT as nat, |i: int| CellView::fresh()));
        grid
    }

    /// A grid whose cells are settled where the seed holds a domain value.
    pub fn from_seed(initial_values: &SeedGrid) -> (grid: Self)
        ensures
            grid@ == seed_cells(*initial_values),
            grid.wf(),
    {
        let grid = CellGrid { grid: grid_from_raw_values(initial_values) };
        assert(grid@ =~= seed_cells(*initial_values));
        grid
    }

    /// The cell in the given row and column.
    pub fn cell(&self, row: usize, column: usize) -> (cell: &Cell)
        requires
            self@.len() == PUZZLE_TOTAL_CELL_COUNT,
            row < PUZZLE_DIMENTION,
            column < PUZZLE_DIMENTION,
        ensures
            cell@ == self@[row * PUZZLE_DIMENTION + column],
    {
        &self.grid[row * PUZZLE_DIMENTION + column]
    }

}

impl Clone for CellGrid {
    /// A copy of the grid that shares no cell with it.
    fn clone(&self) -> (copy: Self)
        ensures
            copy@ == self@,
    {
        let mut cells: Vec<Cell> = Vec::new();
        let mut i: usize = 0;
        while i < self.grid.len()
            invariant
                i <= self.grid.len(),
                cells@.len() == i,
                forall|j: int| 0 <= j < i ==> (#[trigger] cells@[j])@ == self.grid@[j]@,
            decreases self.grid.len() - i,
        {
            cells.push(self.grid[i].clone());
            i += 1;
        }
        let copy = CellGrid { grid: cells };
        assert(copy@ =~= self@);
        copy
    }
}

fn grid_from_raw_values(initial_values: &SeedGrid) -> (cells: Vec<Cell>)
    ensures
        cells@.len() == PUZZLE_TOTAL_CELL_COUNT,
        forall|i: int|
            0 <= i < cells@.len() ==> (#[trigger] cells@[i])@ == seed_cells(*initial_values)[i],
        forall|i: int| 0 <= i < cells@.len() ==> (#[trigger] cells@[i]).wf(),
{
    let mut cells: Vec<Cell> = Vec::new();
    let mut row: usize = 0;
    while row < PUZZLE_DIMENTION
        invariant
            row <= PUZZLE_DIMENTION,
            cells@.len() == row * PUZZLE_DIMENTION,
            forall|i: int|
                0 <= i < cells@.len() ==> (#[trigger] cells@[i])@ == seed_cells(*initial_values)[i],
            forall|i: int| 0 <= i < cells@.len() ==> (#[trigger] cells@[i]).wf(),
        decreases PUZZLE_DIMENTION - row,
    {
        row_from_raw_values(&mut cells, initial_values, row);
        row += 1;
    }
    cells
}

fn row_from_raw_values(cells: &mut Vec<Cell>, initial_values: &SeedGrid, row: usize)
    requires
        row < PUZZLE_DIMENTION,
        old(cells)@.len() == row * PUZZLE_DIMENTION,
        forall|i: int|
            0 <= i < old(cells)@.len()
                ==> (#[trigger] old(cells)@[i])@ == seed_cells(*initial_values)[i],
        forall|i: int| 0 <= i < old(cells)@.len() ==> (#[trigger] old(cells)@[i]).wf(),
    ensures
        final(cells)@.len() == (row + 1) * PUZZLE_DIMENTION,
        forall|i: int|
            0 <= i < final(cells)@.len()
                ==> (#[trigger] final(cells)@[i])@ == seed_cells(*initial_values)[i],
        forall|i: int| 0 <= i < final(cells)@.len() ==> (#[trigger] final(cells)@[i]).wf(),
{
    let mut column: usize = 0;
    while column < PUZZLE_DIMENTION
        invariant
            row < PUZZLE_DIMENTION,
            column <= PUZZLE_DIMENTION,
            cells@.len() == row * PUZZLE_DIMENTION + column,
            forall|i: int|
                0 <= i < cells@.len() ==> (#[trigger] cells@[i])@ == seed_cells(*initial_values)[i],
            forall|i: int| 0 <= i < cells@.len() ==> (#[trigger] cells@[i]).wf(),
        decreases PUZZLE_DIMENTION - column,
    {
        let value = initial_values[row][column];
        cells.push(Cell::from_value(value));
        column += 1;
    }
}

fn empty_grid() -> (cells: Vec<Cell>)
    ensures
        cells@.len() == PUZZLE_TOTAL_CELL_COUNT,
        forall|i: int| 0 <= i < cells@.len() ==> (#[trigger] cells@[i])@ == CellView::fresh(),
        forall|i: int| 0 <= i < cells@.len() ==> (#[trigger] cells@[i]).wf(),
{
    let mut cells: Vec<Cell> = Vec::new();
    let mut row: usize = 0;
    while row < PUZZLE_DIMENTION
        invariant
            row <= PUZZLE_DIMENTION,
            cells@.len() == row * PUZZLE_DIMENTION,
            forall|i: int| 0 <= i < cells@.len() ==> (#[trigger] cells@[i])@ == CellView::fresh(),
            forall|i: int| 0 <= i < cells@.len() ==> (#[trigger] cells@[i]).wf(),
        decreases PUZZLE_DIMENTION - row,
    {
        empty_row_array(&mut cells);
        row += 1;
    }
    cells
}

fn empty_row_array(cells: &mut Vec<Cell>)
    requires
        forall|i: int|
            0 <= i < old(cells)@.len() ==> (#[trigger] old(cells)@[i])@ == CellView::fresh(),
        forall|i: int| 0 <= i < old(cells)@.len() ==> (#[trigger] old(cells)@[i]).wf(),
    ensures
        final(cells)@.len() == old(cells)@.len() + PUZZLE_DIMENTION,
        forall|i: int|
            0 <= i < final(cells)@.len() ==> (#[trigger] final(cells)@[i])@ == CellView::fresh(),
        forall|i: int| 0 <= i < final(cells)@.len() ==> (#[trigger] final(cells)@[i]).wf(),
{
    let mut column: usize = 0;
    while column < PUZZLE_DIMENTION
        invariant
            column <= PUZZLE_DIMENTION,
            cells@.len() == old(cells)@.len() + column,
            forall|i: int| 0 <= i < cells@.len() ==> (#[trigger] cells@[i])@ == CellView::fresh(),
            forall|i: int| 0 <= i < cells@.len() ==> (#[trigger] cells@[i]).wf(),
        decreases PUZZLE_DIMENTION - column,
    {
        cells.push(Cell::new());
        column += 1;
    }
}

} // verus!
