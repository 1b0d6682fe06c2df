//! Rows, columns and blocks as lists of grid indices.

use super::cell::CellView;
use super::consts::{
    PUZZLE_BLOCK_HEIGHT, PUZZLE_BLOCK_WIDTH, PUZZLE_DIMENTION, PUZZLE_TOTAL_CELL_COUNT,
};
use super::validatable_units::{group_in_bounds, groups_wf, CellGroup};
use vstd::prelude::*;

verus! {

/// The grid indices of the cells of a row, left to right.
pub open spec fn row_indices(row: int) -> Seq<usize> {
    Seq::new(PUZZLE_DIMENTION as nat, |k: int| (row * PUZZLE_DIMENTION + k) as usize)
}

/// The grid indices of the cells of a column, top to bottom.
pub open spec fn column_indices(column: int) -> Seq<usize> {
    Seq::new(PUZZLE_DIMENTION as nat, |k: int| (k * PUZZLE_DIMENTION + column) as usize)
}

/// The grid indices of the cells of a block, row by row.  Blocks are counted
/// row by row too: block `b` is in block row `b / 3` and block column `b % 3`.
pub open spec fn block_indices(block: int) -> Seq<usize> {
    Seq::new(
        PUZZLE_DIMENTION as nat,
        |k: int|
            {
                let row = (block / PUZZLE_BLOCK_WIDTH as int) * PUZZLE_BLOCK_HEIGHT + k
                    / PUZZLE_BLOCK_WIDTH as int;
                let column = (block % PUZZLE_BLOCK_WIDTH as int) * PUZZLE_BLOCK_WIDTH + k
                    % PUZZLE_BLOCK_WIDTH as int;
                (row * PUZZLE_DIMENTION + column) as usize
            },
    )
}

/// Whether `group` is one of the 27 rows, columns and blocks of the grid.
pub open spec fn is_unit(group: Seq<usize>) -> bool {
    ||| exists|n: int| 0 <= n < PUZZLE_DIMENTION && group == #[trigger] row_indices(n)
    ||| exists|n: int| 0 <= n < PUZZLE_DIMENTION && group == #[trigger] column_indices(n)
    ||| exists|n: int| 0 <= n < PUZZLE_DIMENTION && group == #[trigger] block_indices(n)
}

/// Which row, column or block a unit is.
pub proof fn lemma_unit_number(group: Seq<usize>) -> (n: int)
    requires
        is_unit(group),
    ensures
        0 <= n < PUZZLE_DIMENTION,
        group == row_indices(n) || group == column_indices(n) || group == block_indices(n),
{
    if exists|n: int| 0 <= n < PUZZLE_DIMENTION && group == #[trigger] row_indices(n) {
        choose|n: int| 0 <= n < PUZZLE_DIMENTION && group == #[trigger] row_indices(n)
    } else if exists|n: int| 0 <= n < PUZZLE_DIMENTION && group == #[trigger] column_indices(n) {
        choose|n: int| 0 <= n < PUZZLE_DIMENTION && group == #[trigger] column_indices(n)
    } else {
        choose|n: int| 0 <= n < PUZZLE_DIMENTION && group == #[trigger] block_indices(n)
    }
}

/// A unit names nine different cells of the grid.
pub proof fn lemma_unit_shape(group: Seq<usize>)
    requires
        is_unit(group),
    ensures
        group.len() == PUZZLE_DIMENTION,
        group.no_duplicates(),
        forall|k: int| 0 <= k < group.len() ==> #[trigger] group[k] < PUZZLE_TOTAL_CELL_COUNT,
{
    let n = lemma_unit_number(group);
    assert forall|i: int, j: int|
        0 <= i < group.len() && 0 <= j < group.len() && i != j implies group[i] != group[j] by {
        if group == block_indices(n) {
            assert(i / 3 != j / 3 || i % 3 != j % 3);
        }
    }
}

/// The rows of the grid, top to bottom.
pub open spec fn all_rows() -> Seq<Seq<usize>> {
    Seq::new(PUZZLE_DIMENTION as nat, |n: int| row_indices(n))
}

/// The columns of the grid, left to right.
pub open spec fn all_columns() -> Seq<Seq<usize>> {
    Seq::new(PUZZLE_DIMENTION as nat, |n: int| column_indices(n))
}

/// The blocks of the grid, row by row.
pub open spec fn all_blocks() -> Seq<Seq<usize>> {
    Seq::new(PUZZLE_DIMENTION as nat, |n: int| block_indices(n))
}

/// The units are groups of different cells of the grid.
pub proof fn lemma_units_are_wf(cells: Seq<CellView>)
    requires
        cells.len() == PUZZLE_TOTAL_CELL_COUNT,
    ensures
        groups_wf(all_rows(), cells),
        groups_wf(all_columns(), cells),
        groups_wf(all_blocks(), cells),
        forall|n: int| 0 <= n < PUZZLE_DIMENTION ==> is_unit(#[trigger] all_rows()[n]),
        forall|n: int| 0 <= n < PUZZLE_DIMENTION ==> is_unit(#[trigger] all_columns()[n]),
        forall|n: int| 0 <= n < PUZZLE_DIMENTION ==> is_unit(#[trigger] all_blocks()[n]),
{
    assert forall|n: int| 0 <= n < PUZZLE_DIMENTION implies is_unit(#[trigger] all_rows()[n])
        && group_in_bounds(all_rows()[n], cells) && all_rows()[n].no_duplicates() by {
        assert(all_rows()[n] == row_indices(n));
        lemma_unit_shape(all_rows()[n]);
    }
    assert forall|n: int| 0 <= n < PUZZLE_DIMENTION implies is_unit(#[trigger] all_columns()[n])
        && group_in_bounds(all_columns()[n], cells) && all_columns()[n].no_duplicates() by {
        assert(all_columns()[n] == column_indices(n));
        lemma_unit_shape(all_columns()[n]);
    }
    assert forall|n: int| 0 <= n < PUZZLE_DIMENTION implies is_unit(#[trigger] all_blocks()[n])
        && group_in_bounds(all_blocks()[n], cells) && all_blocks()[n].no_duplicates() by {
        assert(all_blocks()[n] == block_indices(n));
        lemma_unit_shape(all_blocks()[n]);
    }
}

/// The indices of row `row_number`.
pub fn get_row(row_number: usize) -> (group: CellGroup)
    requires
        row_number < PUZZLE_DIMENTION,
    ensures
        group.cells@ == row_indices(row_number as int),
{
    let mut cells: Vec<usize> = Vec::new();
    let mut k: usize = 0;
    while k < PUZZLE_DIMENTION
        invariant
            row_number < PUZZLE_DIMENTION,
            k <= PUZZLE_DIMENTION,
            cells@.len() == k,
            forall|i: int| 0 <= i < k ==> cells@[i] == row_indices(row_number as int)[i],
        decreases PUZZLE_DIMENTION - k,
    {
        cells.push(row_number * PUZZLE_DIMENTION + k);
        k += 1;
    }
    assert(cells@ =~= row_indices(row_number as int));
    CellGroup::new(cells)
}

/// The indices of column `column_number`.
pub fn get_column(column_number: usize) -> (group: CellGroup)
    requires
        column_number < PUZZLE_DIMENTION,
    ensures
        group.cells@ == column_indices(column_number as int),
{
    let mut cells: Vec<usize> = Vec::new();
    let mut k: usize = 0;
    while k < PUZZLE_DIMENTION
        invariant
            column_number < PUZZLE_DIMENTION,
            k <= PUZZLE_DIMENTION,
            cells@.len() == k,
            forall|i: int| 0 <= i < k ==> cells@[i] == column_indices(column_number as int)[i],
        decreases PUZZLE_DIMENTION - k,
    {
        cells.push(k * PUZZLE_DIMENTION + column_number);
        k += 1;
    }
    assert(cells@ =~= column_indices(column_number as int));
    CellGroup::new(cells)
}

/// The indices of the block in block row `block_row_number` and block column
/// `block_column_number`.
pub fn get_block(block_row_number: usize, block_column_number: usize) -> (group: CellGroup)
    requires
        block_row_number < PUZZLE_BLOCK_HEIGHT,
        block_column_number < PUZZLE_BLOCK_WIDTH,
    ensures
        group.cells@ == block_indices(block_row_number * PUZZLE_BLOCK_WIDTH + block_column_number),
{
    let row_range_lower_index = block_row_number * PUZZLE_BLOCK_HEIGHT;
    let column_range_lower_index = block_column_number * PUZZLE_BLOCK_WIDTH;
    let ghost block = block_row_number * PUZZLE_BLOCK_WIDTH + block_column_number;
    let mut cells: Vec<usize> = Vec::new();
    let mut r: usize = 0;
    while r < PUZZLE_BLOCK_HEIGHT
        invariant
            block_row_number < PUZZLE_BLOCK_HEIGHT,
            block_column_number < PUZZLE_BLOCK_WIDTH,
            row_range_lower_index == block_row_number * PUZZLE_BLOCK_HEIGHT,
            column_range_lower_index == block_column_number * PUZZLE_BLOCK_WIDTH,
            block == block_row_number * PUZZLE_BLOCK_WIDTH + block_column_number,
            r <= PUZZLE_BLOCK_HEIGHT,
            cells@.len() == r * PUZZLE_BLOCK_WIDTH,
            forall|i: int| 0 <= i < cells@.len() ==> cells@[i] == block_indices(block)[i],
        decreases PUZZLE_BLOCK_HEIGHT - r,
    {
        let mut c: usize = 0;
        while c < PUZZLE_BLOCK_WIDTH
            invariant
                block_row_number < PUZZLE_BLOCK_HEIGHT,
                block_column_number < PUZZLE_BLOCK_WIDTH,
                row_range_lower_index == block_row_number * PUZZLE_BLOCK_HEIGHT,
                column_range_lower_index == block_column_number * PUZZLE_BLOCK_WIDTH,
                block == block_row_number * PUZZLE_BLOCK_WIDTH + block_column_number,
                r < PUZZLE_BLOCK_HEIGHT,
                c <= PUZZLE_BLOCK_WIDTH,
                cells@.len() == r * PUZZLE_BLOCK_WIDTH + c,
                forall|i: int| 0 <= i < cells@.len() ==> cells@[i] == block_indices(block)[i],
            decreases PUZZLE_BLOCK_WIDTH - c,
        {
            let row = row_range_lower_index + r;
            let column = column_range_lower_index + c;
            cells.push(row * PUZZLE_DIMENTION + column);
            c += 1;
        }
        r += 1;
    }
    assert(cells@ =~= block_indices(block));
    CellGroup::new(cells)
}

} // verus!
