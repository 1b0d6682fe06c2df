//! Closed groups: where some values can only go to as many cells of a group,
//! no other cell of the group can hold them.

use crate::pretty::iterable::{lemma_is_subset_of_values, SubsetComparable};
use crate::sudoku::domain::cell::{
    is_domain_value, lemma_discount_values_keeps_wf, lemma_without, CellView,
};
use crate::sudoku::domain::cell_grid::{cells_wf, CellGrid};
use crate::sudoku::domain::game::Game;
use crate::sudoku::domain::puzzle::lemma_units_in_place;
use crate::sudoku::domain::units::{all_blocks, all_columns, all_rows, lemma_units_are_wf};
use crate::sudoku::domain::validatable_units::{
    group_has, group_in_bounds, group_views, groups_wf, CellGroup,
};
use crate::sudoku::solution::{
    cell_refines, cell_weight, lemma_refines_order, lemma_refines_weight, lemma_weight_by_cell,
    refines, weight,
};
use crate::sudoku::solver::simple::{
    elimination_fixpoint, lemma_discount_values_refines, set_solved_cells,
};
use crate::sudoku::techniques::implicitly_solved::lemma_elimination_reaches_fixed_point;
use crate::sudoku::techniques::soundness::{keeps_solutions, lemma_propagate_sound};
use vstd::prelude::*;

verus! {

/// Whether every candidate of the cell is one of `key`.
pub open spec fn within(cell: CellView, key: Seq<u8>) -> bool {
    forall|x: u8| #[trigger] cell.candidates.contains(x) ==> key.contains(x)
}

/// How many unsettled cells of the group have all their candidates in `key`.
pub open spec fn confined_count(cells: Seq<CellView>, group: Seq<usize>, key: Seq<u8>) -> nat
    decreases group.len(),
{
    if group.len() == 0 {
        0
    } else {
        let cell = cells[group.last() as int];
        confined_count(cells, group.drop_last(), key) + if cell.value is None && within(cell, key) {
            1nat
        } else {
            0nat
        }
    }
}

/// How many cells of the group are unsettled.
pub open spec fn unsettled_count(cells: Seq<CellView>, group: Seq<usize>) -> nat
    decreases group.len(),
{
    if group.len() == 0 {
        0
    } else {
        unsettled_count(cells, group.drop_last()) + if cells[group.last() as int].value is None {
            1nat
        } else {
            0nat
        }
    }
}

/// The values of `key` are closed in the group: as many unsettled cells as
/// `key` has values can hold nothing else, and they are not all the unsettled
/// cells of the group.
pub open spec fn is_closed(cells: Seq<CellView>, group: Seq<usize>, key: Seq<u8>) -> bool {
    confined_count(cells, group, key) == key.len() && key.len() < unsettled_count(cells, group)
}

/// The candidate lists of the unsettled cells of the group that are closed in
/// it, in the group's order.
pub open spec fn closed_keys(cells: Seq<CellView>, group: Seq<usize>, upto: int) -> Seq<Seq<u8>>
    decreases upto,
{
    if upto <= 0 {
        Seq::empty()
    } else {
        let rest = closed_keys(cells, group, upto - 1);
        let cell = cells[group[upto - 1] as int];
        if cell.value is None && is_closed(cells, group, cell.candidates) {
            rest.push(cell.candidates)
        } else {
            rest
        }
    }
}

/// The grid after the values of `key` were discounted in every cell of the
/// group that has a candidate outside `key`.
pub open spec fn confine(cells: Seq<CellView>, group: Seq<usize>, key: Seq<u8>) -> Seq<CellView> {
    Seq::new(
        cells.len(),
        |i: int|
            if group_has(group, i) && !within(cells[i], key) {
                cells[i].discount_values(key)
            } else {
                cells[i]
            },
    )
}

/// The grid after each of `keys` in turn was treated as in [`confine`].
pub open spec fn confine_all(cells: Seq<CellView>, group: Seq<usize>, keys: Seq<Seq<u8>>) -> Seq<
    CellView,
>
    decreases keys.len(),
{
    if keys.len() == 0 {
        cells
    } else {
        confine(confine_all(cells, group, keys.drop_last()), group, keys.last())
    }
}

/// The closed-group deduction in one group: the keys that are closed in the
/// group as it stands are found first, then each is applied.
pub open spec fn close_group(cells: Seq<CellView>, group: Seq<usize>) -> Seq<CellView> {
    confine_all(cells, group, closed_keys(cells, group, group.len() as int))
}

/// The closed-group deduction in one group after the other.
pub open spec fn close_groups(cells: Seq<CellView>, groups: Seq<Seq<usize>>) -> Seq<CellView>
    decreases groups.len(),
{
    if groups.len() == 0 {
        cells
    } else {
        close_group(close_groups(cells, groups.drop_last()), groups.last())
    }
}

/// One closed-group pass: the deduction in the rows; if that changed nothing,
/// in the columns; if that changed nothing either, in the blocks.
pub open spec fn closed_group_pass(cells: Seq<CellView>) -> Seq<CellView> {
    let by_rows = close_groups(cells, all_rows());
    if by_rows != cells {
        by_rows
    } else {
        let by_columns = close_groups(cells, all_columns());
        if by_columns != cells {
            by_columns
        } else {
            close_groups(cells, all_blocks())
        }
    }
}

/// The views of some keys.
pub open spec fn key_views(keys: Seq<Vec<u8>>) -> Seq<Seq<u8>> {
    keys.map_values(|key: Vec<u8>| key@)
}

/// Discounting values changes a cell exactly when it loses a candidate.
pub proof fn lemma_discount_values_changes(cell: CellView, values: Seq<u8>)
    requires
        cell.wf(),
    ensures
        cell.discount_values(values).candidates.len() <= cell.candidates.len(),
        cell.discount_values(values).candidates.len() == cell.candidates.len()
            ==> cell.discount_values(values) == cell,
    decreases values.len(),
{
    if values.len() > 0 {
        let front = values.drop_last();
        let last = values.last();
        lemma_discount_values_changes(cell, front);
        lemma_discount_values_keeps_wf(cell, front);
        let mid = cell.discount_values(front);
        lemma_without(mid.candidates, last);
        if mid.value is None && is_domain_value(last) && !mid.candidates.contains(last) {
            assert(mid.discounted.contains(last));
        }
    }
}

/// How many cells of the group are unsettled.
fn count_unsettled(grid: &CellGrid, group: &CellGroup) -> (count: usize)
    requires
        group_in_bounds(group.cells@, grid@),
    ensures
        count == unsettled_count(grid@, group.cells@),
{
    let mut count: usize = 0;
    let mut p: usize = 0;
    while p < group.cells.len()
        invariant
            p <= group.cells.len(),
            group_in_bounds(group.cells@, grid@),
            count == unsettled_count(grid@, group.cells@.take(p as int)),
            count <= p,
        decreases group.cells.len() - p,
    {
        proof {
            assert(group.cells@.take(p + 1).drop_last() =~= group.cells@.take(p as int));
        }
        if grid.grid[group.cells[p]].value.is_none() {
            count += 1;
        }
        p += 1;
    }
    assert(group.cells@.take(p as int) =~= group.cells@);
    count
}

/// How many unsettled cells of the group have all their candidates in `key`.
fn count_confined(grid: &CellGrid, group: &CellGroup, key: &Vec<u8>) -> (count: usize)
    requires
        group_in_bounds(group.cells@, grid@),
    ensures
        count == confined_count(grid@, group.cells@, key@),
{
    let mut count: usize = 0;
    let mut p: usize = 0;
    while p < group.cells.len()
        invariant
            p <= group.cells.len(),
            group_in_bounds(group.cells@, grid@),
            count == confined_count(grid@, group.cells@.take(p as int), key@),
            count <= p,
        decreases group.cells.len() - p,
    {
        proof {
            assert(group.cells@.take(p + 1).drop_last() =~= group.cells@.take(p as int));
        }
        let cell = &grid.grid[group.cells[p]];
        proof {
            lemma_is_subset_of_values(cell@.candidates, key@);
        }
        if cell.value.is_none() && key.as_slice().is_superset_of(
            cell.potentially_valid_values.as_slice(),
        ) {
            count += 1;
        }
        p += 1;
    }
    assert(group.cells@.take(p as int) =~= group.cells@);
    count
}

/// The candidate lists that are closed in the group, in the group's order.
fn find_closed_keys(grid: &CellGrid, group: &CellGroup) -> (keys: Vec<Vec<u8>>)
    requires
        group_in_bounds(group.cells@, grid@),
    ensures
        key_views(keys@) == closed_keys(grid@, group.cells@, group.cells@.len() as int),
{
    let unsettled = count_unsettled(grid, group);
    let mut keys: Vec<Vec<u8>> = Vec::new();
    let mut p: usize = 0;
    assert(key_views(keys@) =~= closed_keys(grid@, group.cells@, 0));
    while p < group.cells.len()
        invariant
            p <= group.cells.len(),
            group_in_bounds(group.cells@, grid@),
            unsettled == unsettled_count(grid@, group.cells@),
            key_views(keys@) == closed_keys(grid@, group.cells@, p as int),
        decreases group.cells.len() - p,
    {
        let cell = &grid.grid[group.cells[p]];
        if cell.value.is_none() && cell.potentially_valid_values.len() < unsettled
            && count_confined(grid, group, &cell.potentially_valid_values)
            == cell.potentially_valid_values.len() {
            let ghost sooner = key_views(keys@);
            keys.push(cell.potentially_valid_values.clone());
            assert(key_views(keys@) =~= sooner.push(cell@.candidates));
        }
        p += 1;
    }
    keys
}

/// Discounts the values of `key` in every cell of the group that has a
/// candidate outside `key`, and says whether a cell lost a candidate.
fn confine_to_key(grid: &mut CellGrid, group: &CellGroup, key: &Vec<u8>) -> (changed: bool)
    requires
        old(grid).wf(),
        group_in_bounds(group.cells@, old(grid)@),
        group.cells@.no_duplicates(),
    ensures
        final(grid)@ == confine(old(grid)@, group.cells@, key@),
        final(grid).wf(),
        changed == (final(grid)@ != old(grid)@),
{
    let mut changed = false;
    let mut p: usize = 0;
    while p < group.cells.len()
        invariant
            p <= group.cells.len(),
            old(grid).wf(),
            grid.wf(),
            group_in_bounds(group.cells@, old(grid)@),
            group.cells@.no_duplicates(),
            grid@.len() == old(grid)@.len(),
            forall|i: int|
                0 <= i < grid@.len() ==> #[trigger] grid@[i] == if group_has(
                    group.cells@.take(p as int),
                    i,
                ) && !within(old(grid)@[i], key@) {
                    old(grid)@[i].discount_values(key@)
                } else {
                    old(grid)@[i]
                },
            changed == (grid@ != old(grid)@),
        decreases group.cells.len() - p,
    {
        let index = group.cells[p];
        let ghost before = grid@;
        let ghost sooner = group.cells@.take(p as int);
        let ghost now = group.cells@.take(p + 1);
        proof {
            assert(now =~= sooner.push(index));
            assert(!group_has(sooner, index as int));
            assert(before[index as int] == old(grid)@[index as int]);
            assert(before[index as int].wf());
            lemma_is_subset_of_values(before[index as int].candidates, key@);
            lemma_discount_values_changes(before[index as int], key@);
            lemma_discount_values_keeps_wf(before[index as int], key@);
        }
        if !grid.grid[index].potentially_valid_values.as_slice().is_subset_of(key.as_slice()) {
            let candidate_count = grid.grid[index].potentially_valid_values.len();
            grid.grid[index].discount_values(key.as_slice());
            if grid.grid[index].potentially_valid_values.len() < candidate_count {
                changed = true;
                assert(grid@[index as int] != old(grid)@[index as int]);
            } else {
                assert(grid@[index as int] == before[index as int]);
                assert(grid@ =~= before);
            }
        }
        proof {
            assert forall|i: int| 0 <= i < grid@.len() implies #[trigger] grid@[i] == if group_has(
                now,
                i,
            ) && !within(old(grid)@[i], key@) {
                old(grid)@[i].discount_values(key@)
            } else {
                old(grid)@[i]
            } by {
                if i == index {
                    assert(now[p as int] == index);
                } else {
                    assert(grid@[i] == before[i]);
                    if group_has(now, i) {
                        let k = choose|k: int| 0 <= k < now.len() && #[trigger] now[k] == i;
                        assert(sooner[k] == i);
                    }
                    if group_has(sooner, i) {
                        let k = choose|k: int| 0 <= k < sooner.len() && #[trigger] sooner[k] == i;
                        assert(now[k] == i);
                    }
                }
            }
            assert(grid.wf()) by {
                assert forall|i: int| 0 <= i < grid@.len() implies (#[trigger] grid@[i]).wf() by {
                    if i != index {
                        assert(grid@[i] == before[i]);
                        assert(before[i].wf());
                    }
                }
            }
        }
        p += 1;
    }
    proof {
        assert(group.cells@.take(p as int) =~= group.cells@);
        assert(grid@ =~= confine(old(grid)@, group.cells@, key@));
    }
    changed
}

/// `after` is `before` carried further: well formed, a refinement, and
/// lighter unless it is the same grid.
pub open spec fn advances(before: Seq<CellView>, after: Seq<CellView>) -> bool {
    &&& cells_wf(after)
    &&& refines(before, after)
    &&& after != before ==> weight(after) < weight(before)
}

/// Advancing twice is advancing.
pub proof fn lemma_advances_twice(a: Seq<CellView>, b: Seq<CellView>, c: Seq<CellView>)
    requires
        advances(a, b),
        advances(b, c),
    ensures
        advances(a, c),
{
    lemma_refines_order(a, b, c);
    lemma_refines_weight(a, b);
    lemma_refines_weight(b, c);
}

/// Applying a key advances the grid.
pub proof fn lemma_confine_advances(cells: Seq<CellView>, group: Seq<usize>, key: Seq<u8>)
    requires
        cells_wf(cells),
    ensures
        advances(cells, confine(cells, group, key)),
{
    let after = confine(cells, group, key);
    assert forall|i: int| 0 <= i < cells.len() implies (#[trigger] after[i]).wf() && cell_refines(
        cells[i],
        after[i],
    ) && cell_weight(after[i]) <= cell_weight(cells[i]) && (after[i] != cells[i] ==> cell_weight(
        after[i],
    ) < cell_weight(cells[i])) by {
        assert(cells[i].wf());
        lemma_discount_values_keeps_wf(cells[i], key);
        lemma_discount_values_refines(cells[i], key);
        lemma_discount_values_refines(cells[i], Seq::empty());
        lemma_discount_values_changes(cells[i], key);
    }
    lemma_weight_by_cell(cells, after);
    if after != cells {
        if forall|i: int| 0 <= i < cells.len() ==> after[i] == cells[i] {
            assert(after =~= cells);
        }
        let k = choose|k: int| 0 <= k < cells.len() && after[k] != cells[k];
        assert(cell_weight(after[k]) < cell_weight(cells[k]));
    }
}

/// Applying keys advances the grid.
pub proof fn lemma_confine_all_advances(cells: Seq<CellView>, group: Seq<usize>, keys: Seq<Seq<u8>>)
    requires
        cells_wf(cells),
    ensures
        advances(cells, confine_all(cells, group, keys)),
    decreases keys.len(),
{
    if keys.len() > 0 {
        lemma_confine_all_advances(cells, group, keys.drop_last());
        let before = confine_all(cells, group, keys.drop_last());
        lemma_confine_advances(before, group, keys.last());
        lemma_advances_twice(cells, before, confine_all(cells, group, keys));
    } else {
        lemma_refines_order(cells, cells, cells);
    }
}

/// The deduction in some groups advances the grid.
pub proof fn lemma_close_groups_advances(cells: Seq<CellView>, groups: Seq<Seq<usize>>)
    requires
        cells_wf(cells),
    ensures
        advances(cells, close_groups(cells, groups)),
    decreases groups.len(),
{
    if groups.len() > 0 {
        lemma_close_groups_advances(cells, groups.drop_last());
        let before = close_groups(cells, groups.drop_last());
        let last = groups.last();
        lemma_confine_all_advances(before, last, closed_keys(before, last, last.len() as int));
        lemma_advances_twice(cells, before, close_groups(cells, groups));
    } else {
        lemma_refines_order(cells, cells, cells);
    }
}

/// A closed-group pass advances the grid.
pub proof fn lemma_closed_group_pass_advances(cells: Seq<CellView>)
    requires
        cells_wf(cells),
    ensures
        advances(cells, closed_group_pass(cells)),
{
    lemma_close_groups_advances(cells, all_rows());
    lemma_close_groups_advances(cells, all_columns());
    lemma_close_groups_advances(cells, all_blocks());
}

/// The closed-group deduction in one group.  Says whether a cell lost a
/// candidate.
pub fn close_one_group(grid: &mut CellGrid, group: &CellGroup) -> (changed: bool)
    requires
        old(grid).wf(),
        group_in_bounds(group.cells@, old(grid)@),
        group.cells@.no_duplicates(),
    ensures
        final(grid)@ == close_group(old(grid)@, group.cells@),
        final(grid).wf(),
        changed == (final(grid)@ != old(grid)@),
{
    let keys = find_closed_keys(grid, group);
    let ghost all = key_views(keys@);
    let mut changed = false;
    let mut k: usize = 0;
    proof {
        lemma_refines_order(grid@, grid@, grid@);
    }
    while k < keys.len()
        invariant
            k <= keys.len(),
            all == key_views(keys@),
            all == closed_keys(old(grid)@, group.cells@, group.cells@.len() as int),
            old(grid).wf(),
            grid.wf(),
            group_in_bounds(group.cells@, old(grid)@),
            group.cells@.no_duplicates(),
            grid@.len() == old(grid)@.len(),
            grid@ == confine_all(old(grid)@, group.cells@, all.take(k as int)),
            advances(old(grid)@, grid@),
            changed == (grid@ != old(grid)@),
        decreases keys.len() - k,
    {
        proof {
            assert(all.take(k + 1).drop_last() =~= all.take(k as int));
            assert(all[k as int] == keys@[k as int]@);
            lemma_confine_advances(grid@, group.cells@, all[k as int]);
            lemma_advances_twice(old(grid)@, grid@, confine(grid@, group.cells@, all[k as int]));
        }
        if confine_to_key(grid, group, &keys[k]) {
            changed = true;
        }
        k += 1;
    }
    assert(all.take(k as int) =~= all);
    changed
}

/// The closed-group deduction in one group after the other.  Says whether a
/// cell lost a candidate.
pub fn try_eliminate_options_from_groups(
    grid: &mut CellGrid,
    cell_group_vector: &Vec<CellGroup>,
) -> (any_eliminated: bool)
    requires
        old(grid).wf(),
        groups_wf(group_views(cell_group_vector@), old(grid)@),
    ensures
        final(grid)@ == close_groups(old(grid)@, group_views(cell_group_vector@)),
        final(grid).wf(),
        any_eliminated == (final(grid)@ != old(grid)@),
{
    let mut any_eliminated = false;
    let mut n: usize = 0;
    let ghost groups = group_views(cell_group_vector@);
    proof {
        lemma_refines_order(grid@, grid@, grid@);
    }
    while n < cell_group_vector.len()
        invariant
            n <= cell_group_vector.len(),
            groups == group_views(cell_group_vector@),
            groups_wf(groups, old(grid)@),
            old(grid).wf(),
            grid.wf(),
            grid@.len() == old(grid)@.len(),
            grid@ == close_groups(old(grid)@, groups.take(n as int)),
            advances(old(grid)@, grid@),
            any_eliminated == (grid@ != old(grid)@),
        decreases cell_group_vector.len() - n,
    {
        proof {
            assert(groups.take(n + 1).drop_last() =~= groups.take(n as int));
            assert(groups[n as int] == cell_group_vector@[n as int].cells@);
            assert(group_in_bounds(groups[n as int], old(grid)@));
            let last = groups[n as int];
            lemma_confine_all_advances(grid@, last, closed_keys(grid@, last, last.len() as int));
            lemma_advances_twice(old(grid)@, grid@, close_group(grid@, last));
        }
        if close_one_group(grid, &cell_group_vector[n]) {
            any_eliminated = true;
        }
        n += 1;
    }
    assert(groups.take(n as int) =~= groups);
    any_eliminated
}

/// One closed-group pass, see [`closed_group_pass`].  Says whether a cell
/// lost a candidate.
pub fn try_eliminate_closed_candidate_groups(game: &mut Game) -> (any_eliminated: bool)
    requires
        old(game).wf(),
    ensures
        final(game)@ == closed_group_pass(old(game)@),
        final(game).wf(),
        any_eliminated == (final(game)@ != old(game)@),
{
    proof {
        lemma_units_in_place(game.rows@, game.columns@, game.blocks@, game@);
        lemma_units_are_wf(game@);
        assert(group_views(game.rows@) =~= all_rows());
        assert(group_views(game.columns@) =~= all_columns());
        assert(group_views(game.blocks@) =~= all_blocks());
    }
    if try_eliminate_options_from_groups(&mut game.cell_grid, &game.rows) {
        return true;
    }
    if try_eliminate_options_from_groups(&mut game.cell_grid, &game.columns) {
        return true;
    }
    try_eliminate_options_from_groups(&mut game.cell_grid, &game.blocks)
}

/// The grid after closed-group passes, each followed by elimination, were
/// run until a pass changed nothing.
pub open spec fn closed_fixpoint(cells: Seq<CellView>) -> Seq<CellView>
    decreases weight(cells),
    when cells_wf(cells)
{
    let next = closed_group_pass(cells);
    if next != cells {
        proof {
            lemma_closed_group_pass_advances(cells);
            lemma_elimination_reaches_fixed_point(next);
            lemma_refines_weight(next, elimination_fixpoint(next));
        }
        closed_fixpoint(elimination_fixpoint(next))
    } else {
        cells
    }
}

/// Propagation: elimination, then closed-group passes, each followed by
/// elimination, until a pass changes nothing.
pub open spec fn propagate(cells: Seq<CellView>) -> Seq<CellView> {
    closed_fixpoint(elimination_fixpoint(cells))
}

/// Runs the propagation, see [`propagate`].  Settled cells stay as they are,
/// unsettled ones lose candidates or are settled on one, and every solution
/// of the puzzle stays a solution.
pub fn eliminate_candidates_from_closed_groups(game: &mut Game)
    requires
        old(game).wf(),
    ensures
        final(game)@ == propagate(old(game)@),
        final(game).wf(),
        refines(old(game)@, final(game)@),
        keeps_solutions(old(game)@, final(game)@),
{
    proof {
        lemma_propagate_sound(game@);
    }
    set_solved_cells(game);
    loop
        invariant_except_break
            game.wf(),
            closed_fixpoint(game@) == propagate(old(game)@),
        ensures
            game.wf(),
            game@ == propagate(old(game)@),
        decreases weight(game@),
    {
        proof {
            lemma_closed_group_pass_advances(game@);
            lemma_elimination_reaches_fixed_point(closed_group_pass(game@));
            lemma_refines_weight(
                closed_group_pass(game@),
                elimination_fixpoint(closed_group_pass(game@)),
            );
        }
        let any_eliminated = try_eliminate_closed_candidate_groups(game);
        if !any_eliminated {
            break ;
        }
        set_solved_cells(game);
    }
}

} // verus!
