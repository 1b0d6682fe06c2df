//! Elimination: settled values are discounted in their groups, and cells
//! that are left with one candidate are settled.

use crate::sudoku::domain::cell::{
    is_domain_value, lemma_discount_values_keeps_wf, lemma_try_complete_keeps_wf, lemma_without,
    CellView,
};
use crate::sudoku::domain::cell_grid::{
    cells_wf, lemma_settled_count_monotonic, settled_count, CellGrid,
};
use crate::sudoku::domain::game::Game;
use crate::sudoku::domain::puzzle::lemma_units_in_place;
use crate::sudoku::domain::units::{all_blocks, all_columns, all_rows, lemma_units_are_wf};
use crate::sudoku::domain::validatable_units::{
    group_has, group_in_bounds, group_views, groups_wf, CellGroup,
};
use crate::sudoku::solution::{cell_refines, lemma_refines_order, refines};
use vstd::prelude::*;

verus! {

/// The values on which cells of the group are settled, in the group's order.
pub open spec fn used_values(cells: Seq<CellView>, group: Seq<usize>) -> Seq<u8>
    decreases group.len(),
{
    if group.len() == 0 {
        Seq::empty()
    } else {
        let rest = used_values(cells, group.drop_last());
        match cells[group.last() as int].value {
            Some(v) => rest.push(v),
            None => rest,
        }
    }
}

/// The grid after each cell of the group has had `values` discounted.
pub open spec fn discount_in(cells: Seq<CellView>, group: Seq<usize>, values: Seq<u8>) -> Seq<
    CellView,
> {
    Seq::new(
        cells.len(),
        |i: int|
            if group_has(group, i) {
                cells[i].discount_values(values)
            } else {
                cells[i]
            },
    )
}

/// The grid after the unsettled cells of the group have lost, as candidates,
/// the values on which other cells of the group are settled.
pub open spec fn discount_group(cells: Seq<CellView>, group: Seq<usize>) -> Seq<CellView> {
    discount_in(cells, group, used_values(cells, group))
}

/// The grid after one group after the other was treated as in
/// [`discount_group`].
pub open spec fn discount_groups(cells: Seq<CellView>, groups: Seq<Seq<usize>>) -> Seq<CellView>
    decreases groups.len(),
{
    if groups.len() == 0 {
        cells
    } else {
        discount_group(discount_groups(cells, groups.drop_last()), groups.last())
    }
}

/// The grid after every cell with a single candidate was settled on it.
pub open spec fn complete_all(cells: Seq<CellView>) -> Seq<CellView> {
    cells.map_values(|cell: CellView| cell.try_complete())
}

/// One round of elimination: the rows, then the columns, then the blocks
/// discount their settled values, then every cell that is left with a single
/// candidate is settled.
pub open spec fn elimination_pass(cells: Seq<CellView>) -> Seq<CellView> {
    complete_all(
        discount_groups(
            discount_groups(discount_groups(cells, all_rows()), all_columns()),
            all_blocks(),
        ),
    )
}

/// Discounting in a group keeps the cells' invariant and the grid's size.
pub proof fn lemma_discount_in_keeps_wf(cells: Seq<CellView>, group: Seq<usize>, values: Seq<u8>)
    requires
        cells_wf(cells),
    ensures
        cells_wf(discount_in(cells, group, values)),
{
    assert forall|i: int| 0 <= i < cells.len() implies (#[trigger] discount_in(
        cells,
        group,
        values,
    )[i]).wf() by {
        assert(cells[i].wf());
        lemma_discount_values_keeps_wf(cells[i], values);
    }
}

/// Discounting in several groups keeps the cells' invariant.
pub proof fn lemma_discount_groups_keeps_wf(cells: Seq<CellView>, groups: Seq<Seq<usize>>)
    requires
        cells_wf(cells),
    ensures
        cells_wf(discount_groups(cells, groups)),
    decreases groups.len(),
{
    if groups.len() > 0 {
        lemma_discount_groups_keeps_wf(cells, groups.drop_last());
        let before = discount_groups(cells, groups.drop_last());
        lemma_discount_in_keeps_wf(before, groups.last(), used_values(before, groups.last()));
    }
}

/// Settling the cells with a single candidate keeps the cells' invariant.
pub proof fn lemma_complete_all_keeps_wf(cells: Seq<CellView>)
    requires
        cells_wf(cells),
    ensures
        cells_wf(complete_all(cells)),
{
    assert forall|i: int| 0 <= i < cells.len() implies (#[trigger] complete_all(cells)[i]).wf() by {
        assert(cells[i].wf());
        lemma_try_complete_keeps_wf(cells[i]);
    }
}

/// The values on which cells of the group are settled.
pub fn collect_used_values(grid: &CellGrid, group: &CellGroup) -> (used: Vec<u8>)
    requires
        group_in_bounds(group.cells@, grid@),
    ensures
        used@ == used_values(grid@, group.cells@),
{
    let mut used: Vec<u8> = Vec::new();
    let mut p: usize = 0;
    while p < group.cells.len()
        invariant
            p <= group.cells.len(),
            group_in_bounds(group.cells@, grid@),
            used@ == used_values(grid@, group.cells@.take(p as int)),
        decreases group.cells.len() - p,
    {
        proof {
            assert(group.cells@.take(p + 1).drop_last() =~= group.cells@.take(p as int));
        }
        if let Some(value) = grid.grid[group.cells[p]].value {
            used.push(value);
        }
        p += 1;
    }
    assert(group.cells@.take(p as int) =~= group.cells@);
    used
}

/// Discounts `values` in every cell of the group.
pub fn discount_values_in_group(grid: &mut CellGrid, group: &CellGroup, values: &Vec<u8>)
    requires
        group_in_bounds(group.cells@, old(grid)@),
        group.cells@.no_duplicates(),
    ensures
        final(grid)@ == discount_in(old(grid)@, group.cells@, values@),
        old(grid).wf() ==> final(grid).wf(),
{
    let mut p: usize = 0;
    while p < group.cells.len()
        invariant
            p <= group.cells.len(),
            group_in_bounds(group.cells@, old(grid)@),
            group.cells@.no_duplicates(),
            grid@.len() == old(grid)@.len(),
            forall|i: int|
                0 <= i < grid@.len() ==> #[trigger] grid@[i] == if group_has(
                    group.cells@.take(p as int),
                    i,
                ) {
                    old(grid)@[i].discount_values(values@)
                } else {
                    old(grid)@[i]
                },
        decreases group.cells.len() - p,
    {
        let index = group.cells[p];
        let ghost before = grid@;
        grid.grid[index].discount_values(values.as_slice());
        proof {
            assert(group.cells@.take(p + 1) =~= group.cells@.take(p as int).push(index));
            assert(!group_has(group.cells@.take(p as int), index as int));
            assert forall|i: int| 0 <= i < grid@.len() implies #[trigger] grid@[i]
                == if group_has(group.cells@.take(p + 1), i) {
                old(grid)@[i].discount_values(values@)
            } else {
                old(grid)@[i]
            } by {
                let sooner = group.cells@.take(p as int);
                let now = group.cells@.take(p + 1);
                if i == index {
                    assert(now[p as int] == index);
                    assert(grid@[i] == before[i].discount_values(values@));
                } else {
                    assert(grid@[i] == before[i]);
                    if group_has(now, i) {
                        let k = choose|k: int| 0 <= k < now.len() && #[trigger] now[k] == i;
                        assert(sooner[k] == i);
                    }
                    if group_has(sooner, i) {
                        let k = choose|k: int| 0 <= k < sooner.len() && #[trigger] sooner[k] == i;
                        assert(now[k] == i);
                    }
                }
            }
        }
        p += 1;
    }
    proof {
        assert(group.cells@.take(p as int) =~= group.cells@);
        assert(grid@ =~= discount_in(old(grid)@, group.cells@, values@));
        if old(grid).wf() {
            lemma_discount_in_keeps_wf(old(grid)@, group.cells@, values@);
        }
    }
}

/// In each group in turn, discounts from the unsettled cells the values on
/// which cells of the group are settled.
pub fn eliminate_options_from_groups(grid: &mut CellGrid, collection: &Vec<CellGroup>)
    requires
        groups_wf(group_views(collection@), old(grid)@),
    ensures
        final(grid)@ == discount_groups(old(grid)@, group_views(collection@)),
        old(grid).wf() ==> final(grid).wf(),
{
    let mut n: usize = 0;
    let ghost groups = group_views(collection@);
    while n < collection.len()
        invariant
            n <= collection.len(),
            groups == group_views(collection@),
            groups_wf(groups, old(grid)@),
            grid@.len() == old(grid)@.len(),
            grid@ == discount_groups(old(grid)@, groups.take(n as int)),
            old(grid).wf() ==> grid.wf(),
        decreases collection.len() - n,
    {
        proof {
            assert(groups.take(n + 1).drop_last() =~= groups.take(n as int));
            assert(groups[n as int] == collection@[n as int].cells@);
            assert(group_in_bounds(groups[n as int], old(grid)@));
        }
        let used = collect_used_values(grid, &collection[n]);
        discount_values_in_group(grid, &collection[n], &used);
        n += 1;
    }
    assert(groups.take(n as int) =~= groups);
}

/// Settles every cell that has a single candidate.
pub fn complete_cells(grid: &mut CellGrid)
    ensures
        final(grid)@ == complete_all(old(grid)@),
        old(grid).wf() ==> final(grid).wf(),
{
    let mut i: usize = 0;
    while i < grid.grid.len()
        invariant
            i <= grid.grid.len(),
            grid@.len() == old(grid)@.len(),
            forall|j: int| 0 <= j < i ==> #[trigger] grid@[j] == old(grid)@[j].try_complete(),
            forall|j: int| i <= j < grid@.len() ==> #[trigger] grid@[j] == old(grid)@[j],
        decreases grid.grid.len() - i,
    {
        let ghost before = grid@;
        assert(before[i as int] == old(grid)@[i as int]);
        grid.grid[i].try_complete();
        proof {
            assert forall|j: int| 0 <= j < i + 1 implies #[trigger] grid@[j] == old(
                grid,
            )@[j].try_complete() by {
                if j < i {
                    assert(grid@[j] == before[j]);
                } else {
                    assert(grid@[j] == before[j].try_complete());
                }
            }
            assert forall|j: int| i + 1 <= j < grid@.len() implies #[trigger] grid@[j] == old(
                grid,
            )@[j] by {
                assert(grid@[j] == before[j]);
            }
        }
        i += 1;
    }
    proof {
        assert(grid@ =~= complete_all(old(grid)@));
        if old(grid).wf() {
            lemma_complete_all_keeps_wf(old(grid)@);
        }
    }
}

/// One round of elimination, see [`elimination_pass`].
pub fn try_complete_all_cells(game: &mut Game)
    requires
        old(game).wf(),
    ensures
        final(game)@ == elimination_pass(old(game)@),
        final(game).wf(),
        settled_count(final(game)@) >= settled_count(old(game)@),
{
    proof {
        lemma_units_in_place(game.rows@, game.columns@, game.blocks@, game@);
        lemma_units_are_wf(game@);
        assert(group_views(game.rows@) =~= all_rows());
        assert(group_views(game.columns@) =~= all_columns());
        assert(group_views(game.blocks@) =~= all_blocks());
        lemma_elimination_pass_refines(game@);
    }
    eliminate_options_from_groups(&mut game.cell_grid, &game.rows);
    eliminate_options_from_groups(&mut game.cell_grid, &game.columns);
    eliminate_options_from_groups(&mut game.cell_grid, &game.blocks);
    complete_cells(&mut game.cell_grid);
}

/// Discounting in groups keeps the number of cells.
pub proof fn lemma_discount_groups_len(cells: Seq<CellView>, groups: Seq<Seq<usize>>)
    ensures
        discount_groups(cells, groups).len() == cells.len(),
    decreases groups.len(),
{
    if groups.len() > 0 {
        lemma_discount_groups_len(cells, groups.drop_last());
    }
}

/// A round of elimination keeps the number of cells.
pub proof fn lemma_elimination_pass_len(cells: Seq<CellView>)
    ensures
        elimination_pass(cells).len() == cells.len(),
{
    let a = discount_groups(cells, all_rows());
    let b = discount_groups(a, all_columns());
    lemma_discount_groups_len(cells, all_rows());
    lemma_discount_groups_len(a, all_columns());
    lemma_discount_groups_len(b, all_blocks());
}

/// The grid after rounds of elimination were run for as long as the last
/// round settled a cell.
pub open spec fn elimination_fixpoint(cells: Seq<CellView>) -> Seq<CellView>
    decreases cells.len() - settled_count(cells),
{
    let next = elimination_pass(cells);
    if settled_count(next) > settled_count(cells) {
        proof {
            lemma_elimination_pass_len(cells);
            lemma_settled_count_monotonic(next, next);
        }
        elimination_fixpoint(next)
    } else {
        next
    }
}

/// Runs rounds of elimination for as long as the last round settled a cell.
pub fn set_solved_cells(game: &mut Game)
    requires
        old(game).wf(),
    ensures
        final(game)@ == elimination_fixpoint(old(game)@),
        final(game).wf(),
    decreases old(game)@.len() - settled_count(old(game)@),
{
    let pre_iteration_completed_cell_count = game.count_cells_with_value();
    try_complete_all_cells(game);
    proof {
        lemma_settled_count_monotonic(game@, game@);
    }
    if game.count_cells_with_value() > pre_iteration_completed_cell_count {
        set_solved_cells(game);
    }
}

/// Discounting values refines a cell.
pub proof fn lemma_discount_values_refines(cell: CellView, values: Seq<u8>)
    requires
        cell.wf(),
    ensures
        cell_refines(cell, cell.discount_values(values)),
        cell.discount_values(values).value == cell.value,
        forall|x: u8| #[trigger]
            cell.discount_values(values).candidates.contains(x) <==> cell.candidates.contains(x)
                && !(cell.value is None && values.contains(x)),
    decreases values.len(),
{
    if values.len() > 0 {
        let front = values.drop_last();
        let last = values.last();
        lemma_discount_values_refines(cell, front);
        lemma_discount_values_keeps_wf(cell, front);
        let mid = cell.discount_values(front);
        lemma_without(mid.candidates, last);
        assert(values =~= front.push(last));
        assert forall|x: u8| #[trigger]
            cell.discount_values(values).candidates.contains(x) <==> cell.candidates.contains(x)
                && !(cell.value is None && values.contains(x)) by {
            assert(mid.candidates.contains(x) <==> cell.candidates.contains(x) && !(cell.value
                is None && front.contains(x)));
            assert(values.contains(x) <==> front.contains(x) || x == last) by {
                if values.contains(x) {
                    let k = choose|k: int| 0 <= k < values.len() && values[k] == x;
                    if k < front.len() {
                        assert(front[k] == x);
                    }
                }
                if front.contains(x) {
                    let k = choose|k: int| 0 <= k < front.len() && front[k] == x;
                    assert(values[k] == x);
                }
                if x == last {
                    assert(values[values.len() - 1] == x);
                }
            }
            if cell.value is None && !is_domain_value(last) {
                assert(mid.candidates.contains(last) ==> is_domain_value(last));
            }
        }
    }
}

/// Discounting in a group refines the grid.
pub proof fn lemma_discount_in_refines(cells: Seq<CellView>, group: Seq<usize>, values: Seq<u8>)
    requires
        cells_wf(cells),
    ensures
        refines(cells, discount_in(cells, group, values)),
{
    let after = discount_in(cells, group, values);
    assert forall|i: int|
        0 <= i < cells.len() implies #[trigger] cell_refines(cells[i], after[i]) by {
        assert(cells[i].wf());
        lemma_discount_values_refines(cells[i], values);
    }
}

/// Discounting in several groups refines the grid.
pub proof fn lemma_discount_groups_refines(cells: Seq<CellView>, groups: Seq<Seq<usize>>)
    requires
        cells_wf(cells),
    ensures
        refines(cells, discount_groups(cells, groups)),
        cells_wf(discount_groups(cells, groups)),
    decreases groups.len(),
{
    lemma_discount_groups_keeps_wf(cells, groups);
    if groups.len() > 0 {
        lemma_discount_groups_refines(cells, groups.drop_last());
        let before = discount_groups(cells, groups.drop_last());
        lemma_discount_in_refines(before, groups.last(), used_values(before, groups.last()));
        lemma_refines_order(cells, before, discount_groups(cells, groups));
    } else {
        lemma_refines_order(cells, cells, cells);
    }
}

/// Settling the cells with a single candidate refines the grid.
pub proof fn lemma_complete_all_refines(cells: Seq<CellView>)
    requires
        cells_wf(cells),
    ensures
        refines(cells, complete_all(cells)),
{
    let after = complete_all(cells);
    assert forall|i: int|
        0 <= i < cells.len() implies #[trigger] cell_refines(cells[i], after[i]) by {
        assert(cells[i].wf());
        if cells[i].candidates.len() == 1 {
            assert(cells[i].candidates.contains(cells[i].candidates[0]));
        }
    }
}

/// A round of elimination refines the grid, keeps the cells' invariant and
/// unsettles no cell.
pub proof fn lemma_elimination_pass_refines(cells: Seq<CellView>)
    requires
        cells_wf(cells),
    ensures
        refines(cells, elimination_pass(cells)),
        cells_wf(elimination_pass(cells)),
        settled_count(elimination_pass(cells)) >= settled_count(cells),
{
    let a = discount_groups(cells, all_rows());
    let b = discount_groups(a, all_columns());
    let c = discount_groups(b, all_blocks());
    lemma_discount_groups_refines(cells, all_rows());
    lemma_discount_groups_refines(a, all_columns());
    lemma_discount_groups_refines(b, all_blocks());
    lemma_complete_all_refines(c);
    lemma_complete_all_keeps_wf(c);
    lemma_refines_order(cells, a, b);
    lemma_refines_order(cells, b, c);
    lemma_refines_order(cells, c, complete_all(c));
    let after = elimination_pass(cells);
    assert forall|i: int|
        0 <= i < cells.len() && (#[trigger] cells[i]).value is Some
            implies after[i].value is Some by {
        assert(cell_refines(cells[i], after[i]));
    }
    lemma_settled_count_monotonic(cells, after);
}

} // verus!
