//! Elimination run to its fixed point, and the proof that it is one.

use crate::sudoku::domain::cell::{is_domain_value, lemma_without, CellView};
use crate::sudoku::domain::cell_grid::{cells_wf, lemma_settled_count_monotonic, settled_count};
use crate::sudoku::domain::puzzle::Puzzle;
use crate::sudoku::domain::units::{all_blocks, all_columns, all_rows, lemma_units_are_wf};
use crate::sudoku::domain::validatable_units::group_has;
use crate::sudoku::solution::{cell_refines, lemma_refines_order, refines};
use crate::sudoku::solver::simple::{
    discount_group, discount_groups, discount_in, elimination_fixpoint, elimination_pass,
    lemma_discount_groups_len, lemma_discount_groups_refines, lemma_discount_in_refines,
    lemma_discount_values_refines, lemma_elimination_pass_len, lemma_elimination_pass_refines,
    try_complete_all_cells, used_values,
};
use crate::sudoku::techniques::soundness::{keeps_solutions, lemma_elimination_keeps};
use vstd::prelude::*;

verus! {

/// Runs rounds of elimination until a round settles no cell.  No cell is
/// unsettled by it, no solution of the puzzle is lost, and what is left is a
/// fixed point: a further round changes nothing.
pub fn solve_single_candidate_cells(sudoku: &mut Puzzle)
    requires
        old(sudoku).wf(),
    ensures
        final(sudoku)@ == elimination_fixpoint(old(sudoku)@),
        final(sudoku).wf(),
        settled_count(final(sudoku)@) >= settled_count(old(sudoku)@),
        elimination_pass(final(sudoku)@) == final(sudoku)@,
        refines(old(sudoku)@, final(sudoku)@),
        keeps_solutions(old(sudoku)@, final(sudoku)@),
{
    proof {
        lemma_elimination_reaches_fixed_point(sudoku@);
        lemma_elimination_keeps(sudoku@);
    }
    loop
        invariant_except_break
            sudoku.wf(),
            elimination_fixpoint(sudoku@) == elimination_fixpoint(old(sudoku)@),
        ensures
            sudoku.wf(),
            sudoku@ == elimination_fixpoint(old(sudoku)@),
        decreases sudoku@.len() - settled_count(sudoku@),
    {
        let pre_iteration_completed_cell_count = sudoku.count_cells_with_value();
        try_complete_all_cells(sudoku);
        proof {
            lemma_settled_count_monotonic(sudoku@, sudoku@);
        }
        if sudoku.count_cells_with_value() == pre_iteration_completed_cell_count {
            break ;
        }
    }
}

/// None of `values` is a candidate of the cell any more.
pub open spec fn absorbed(cell: CellView, values: Seq<u8>) -> bool {
    cell.value is Some || forall|v: u8|
        #[trigger] values.contains(v) ==> !cell.candidates.contains(v)
}

/// No cell of the group has a candidate on which another cell of the group is
/// settled.
pub open spec fn saturated(cells: Seq<CellView>, group: Seq<usize>) -> bool {
    forall|i: int|
        0 <= i < cells.len() && group_has(group, i) ==> absorbed(
            #[trigger] cells[i],
            used_values(cells, group),
        )
}

/// The same cells are settled, on the same values.
pub open spec fn same_values(before: Seq<CellView>, after: Seq<CellView>) -> bool {
    &&& before.len() == after.len()
    &&& forall|i: int| 0 <= i < before.len() ==> (#[trigger] before[i]).value == after[i].value
}

/// Discounting values that are no candidates changes nothing.
pub proof fn lemma_absorbed_discount(cell: CellView, values: Seq<u8>)
    requires
        cell.wf(),
        absorbed(cell, values),
    ensures
        cell.discount_values(values) == cell,
    decreases values.len(),
{
    if values.len() > 0 {
        let front = values.drop_last();
        let last = values.last();
        assert forall|v: u8| #[trigger] front.contains(v) implies values.contains(v) by {
            let k = choose|k: int| 0 <= k < front.len() && front[k] == v;
            assert(values[k] == v);
        }
        lemma_absorbed_discount(cell, front);
        if cell.value is None && is_domain_value(last) {
            assert(values[values.len() - 1] == last);
            assert(values.contains(last));
            lemma_without(cell.candidates, last);
            assert(cell.discounted.contains(last));
        }
    }
}

/// Where the same cells of the group are settled on the same values, the
/// group's used values are the same.
pub proof fn lemma_used_values_same(before: Seq<CellView>, after: Seq<CellView>, group: Seq<usize>)
    requires
        forall|k: int|
            0 <= k < group.len() ==> before[#[trigger] group[k] as int].value
                == after[group[k] as int].value,
    ensures
        used_values(before, group) == used_values(after, group),
    decreases group.len(),
{
    if group.len() > 0 {
        let front = group.drop_last();
        assert forall|k: int| 0 <= k < front.len() implies before[#[trigger] front[k] as int].value
            == after[front[k] as int].value by {
            assert(front[k] == group[k]);
        }
        lemma_used_values_same(before, after, front);
        assert(group[group.len() - 1] == group.last());
    }
}

/// Discounting in a group settles no cell and changes no settled value.
pub proof fn lemma_discount_in_same_values(cells: Seq<CellView>, group: Seq<usize>, values: Seq<u8>)
    requires
        cells_wf(cells),
    ensures
        same_values(cells, discount_in(cells, group, values)),
{
    let after = discount_in(cells, group, values);
    assert forall|i: int|
        0 <= i < cells.len() implies (#[trigger] cells[i]).value == after[i].value by {
        assert(cells[i].wf());
        lemma_discount_values_refines(cells[i], values);
    }
}

/// Discounting in groups settles no cell and changes no settled value.
pub proof fn lemma_discount_groups_same_values(cells: Seq<CellView>, groups: Seq<Seq<usize>>)
    requires
        cells_wf(cells),
    ensures
        same_values(cells, discount_groups(cells, groups)),
    decreases groups.len(),
{
    if groups.len() > 0 {
        lemma_discount_groups_same_values(cells, groups.drop_last());
        let before = discount_groups(cells, groups.drop_last());
        lemma_discount_groups_refines(cells, groups.drop_last());
        lemma_discount_in_same_values(before, groups.last(), used_values(before, groups.last()));
        let after = discount_groups(cells, groups);
        assert forall|i: int|
            0 <= i < cells.len() implies (#[trigger] cells[i]).value == after[i].value by {
            assert(before[i].value == after[i].value);
        }
    }
}

/// A saturated group stays saturated while cells only lose candidates.
pub proof fn lemma_saturated_stays(before: Seq<CellView>, after: Seq<CellView>, group: Seq<usize>)
    requires
        refines(before, after),
        same_values(before, after),
        saturated(before, group),
        forall|k: int| 0 <= k < group.len() ==> #[trigger] group[k] < before.len(),
    ensures
        saturated(after, group),
{
    assert forall|k: int| 0 <= k < group.len() implies before[#[trigger] group[k] as int].value
        == after[group[k] as int].value by {
        let i = group[k] as int;
        assert(before[i].value == after[i].value);
    }
    lemma_used_values_same(before, after, group);
    assert forall|i: int| 0 <= i < after.len() && group_has(group, i) implies absorbed(
        #[trigger] after[i],
        used_values(after, group),
    ) by {
        assert(absorbed(before[i], used_values(before, group)));
        assert(cell_refines(before[i], after[i]));
        assert(before[i].value == after[i].value);
    }
}

/// After the discount step of a group, the group is saturated.
pub proof fn lemma_discount_group_saturates(cells: Seq<CellView>, group: Seq<usize>)
    requires
        cells_wf(cells),
        forall|k: int| 0 <= k < group.len() ==> #[trigger] group[k] < cells.len(),
    ensures
        saturated(discount_group(cells, group), group),
{
    let used = used_values(cells, group);
    let after = discount_group(cells, group);
    lemma_discount_in_same_values(cells, group, used);
    assert forall|k: int| 0 <= k < group.len() implies cells[#[trigger] group[k] as int].value
        == after[group[k] as int].value by {
        let i = group[k] as int;
        assert(cells[i].value == after[i].value);
    }
    lemma_used_values_same(cells, after, group);
    assert forall|i: int| 0 <= i < after.len() && group_has(group, i) implies absorbed(
        #[trigger] after[i],
        used_values(after, group),
    ) by {
        assert(cells[i].wf());
        lemma_discount_values_refines(cells[i], used);
    }
}

/// After the discount step of some groups, each of them is saturated.
pub proof fn lemma_discount_groups_saturates(cells: Seq<CellView>, groups: Seq<Seq<usize>>)
    requires
        cells_wf(cells),
        forall|n: int, k: int|
            0 <= n < groups.len() && 0 <= k < groups[n].len()
                ==> #[trigger] groups[n][k] < cells.len(),
    ensures
        forall|n: int|
            0 <= n < groups.len()
                ==> saturated(discount_groups(cells, groups), #[trigger] groups[n]),
    decreases groups.len(),
{
    if groups.len() > 0 {
        let front = groups.drop_last();
        let last = groups.last();
        assert forall|n: int, k: int|
            0 <= n < front.len() && 0 <= k < front[n].len() implies #[trigger] front[n][k]
            < cells.len() by {
            assert(front[n] == groups[n]);
            assert(groups[n][k] < cells.len());
        }
        lemma_discount_groups_saturates(cells, front);
        let before = discount_groups(cells, front);
        let after = discount_groups(cells, groups);
        lemma_discount_groups_refines(cells, front);
        lemma_discount_groups_len(cells, front);
        let used = used_values(before, last);
        lemma_discount_in_refines(before, last, used);
        lemma_discount_in_same_values(before, last, used);
        assert forall|k: int| 0 <= k < last.len() implies #[trigger] last[k] < before.len() by {
            assert(groups[groups.len() - 1][k] < cells.len());
        }
        lemma_discount_group_saturates(before, last);
        assert forall|n: int|
            0 <= n < groups.len() implies saturated(after, #[trigger] groups[n]) by {
            if n < front.len() {
                assert(front[n] == groups[n]);
                assert(saturated(before, front[n]));
                assert forall|k: int| 0 <= k < groups[n].len() implies #[trigger] groups[n][k]
                    < before.len() by {
                    assert(groups[n][k] < cells.len());
                }
                lemma_saturated_stays(before, after, groups[n]);
            }
        }
    }
}

/// The discount step changes nothing in a group that is saturated.
pub proof fn lemma_saturated_discount_group(cells: Seq<CellView>, group: Seq<usize>)
    requires
        cells_wf(cells),
        saturated(cells, group),
    ensures
        discount_group(cells, group) == cells,
{
    let after = discount_group(cells, group);
    assert forall|i: int| 0 <= i < cells.len() implies after[i] == cells[i] by {
        if group_has(group, i) {
            assert(cells[i].wf());
            assert(absorbed(cells[i], used_values(cells, group)));
            lemma_absorbed_discount(cells[i], used_values(cells, group));
        }
    }
    assert(after =~= cells);
}

/// The discount step changes nothing where every group is saturated.
pub proof fn lemma_saturated_discount_groups(cells: Seq<CellView>, groups: Seq<Seq<usize>>)
    requires
        cells_wf(cells),
        forall|n: int| 0 <= n < groups.len() ==> saturated(cells, #[trigger] groups[n]),
    ensures
        discount_groups(cells, groups) == cells,
    decreases groups.len(),
{
    if groups.len() > 0 {
        let front = groups.drop_last();
        assert forall|n: int|
            0 <= n < front.len() implies saturated(cells, #[trigger] front[n]) by {
            assert(front[n] == groups[n]);
        }
        lemma_saturated_discount_groups(cells, front);
        assert(saturated(cells, groups[groups.len() - 1]));
        lemma_saturated_discount_group(cells, groups.last());
    }
}

/// Every unit is saturated after the discount steps of a round.
proof fn lemma_round_saturates(cells: Seq<CellView>)
    requires
        cells_wf(cells),
    ensures
        ({
            let d = discount_groups(
                discount_groups(discount_groups(cells, all_rows()), all_columns()),
                all_blocks(),
            );
            &&& cells_wf(d)
            &&& same_values(cells, d)
            &&& discount_groups(d, all_rows()) == d
            &&& discount_groups(d, all_columns()) == d
            &&& discount_groups(d, all_blocks()) == d
        }),
{
    let a = discount_groups(cells, all_rows());
    let b = discount_groups(a, all_columns());
    let d = discount_groups(b, all_blocks());
    lemma_units_are_wf(cells);
    lemma_discount_groups_len(cells, all_rows());
    lemma_discount_groups_len(a, all_columns());
    lemma_discount_groups_len(b, all_blocks());
    lemma_discount_groups_refines(cells, all_rows());
    lemma_discount_groups_refines(a, all_columns());
    lemma_discount_groups_refines(b, all_blocks());
    lemma_discount_groups_same_values(cells, all_rows());
    lemma_discount_groups_same_values(a, all_columns());
    lemma_discount_groups_same_values(b, all_blocks());
    lemma_refines_order(a, b, d);
    assert(same_values(a, d)) by {
        assert forall|i: int| 0 <= i < a.len() implies (#[trigger] a[i]).value == d[i].value by {
            assert(b[i].value == d[i].value);
        }
    }
    assert(same_values(cells, d)) by {
        assert forall|i: int|
            0 <= i < cells.len() implies (#[trigger] cells[i]).value == d[i].value by {
            assert(a[i].value == d[i].value);
        }
    }
    lemma_discount_groups_saturates(cells, all_rows());
    lemma_discount_groups_saturates(a, all_columns());
    lemma_discount_groups_saturates(b, all_blocks());
    assert forall|n: int|
        0 <= n < all_rows().len() implies saturated(d, #[trigger] all_rows()[n]) by {
        lemma_saturated_stays(a, d, all_rows()[n]);
    }
    assert forall|n: int| 0 <= n < all_columns().len() implies saturated(
        d,
        #[trigger] all_columns()[n],
    ) by {
        lemma_saturated_stays(b, d, all_columns()[n]);
    }
    lemma_saturated_discount_groups(d, all_rows());
    lemma_saturated_discount_groups(d, all_columns());
    lemma_saturated_discount_groups(d, all_blocks());
}

/// A round that settles no cell leaves a grid that a further round does not
/// change.
pub proof fn lemma_stalled_round_is_fixed(cells: Seq<CellView>)
    requires
        cells_wf(cells),
        settled_count(elimination_pass(cells)) <= settled_count(cells),
    ensures
        elimination_pass(elimination_pass(cells)) == elimination_pass(cells),
{
    let d = discount_groups(
        discount_groups(discount_groups(cells, all_rows()), all_columns()),
        all_blocks(),
    );
    let f = elimination_pass(cells);
    lemma_round_saturates(cells);
    lemma_elimination_pass_refines(cells);
    assert forall|i: int|
        0 <= i < cells.len() && (#[trigger] cells[i]).value is Some implies d[i].value is Some by {}
    assert forall|i: int|
        0 <= i < d.len() && (#[trigger] d[i]).value is Some implies cells[i].value is Some by {
        assert(cells[i].value == d[i].value);
    }
    lemma_settled_count_monotonic(cells, d);
    lemma_settled_count_monotonic(d, cells);
    assert forall|i: int|
        0 <= i < d.len() && (#[trigger] d[i]).value is Some implies f[i].value is Some by {
        assert(d[i].wf());
    }
    lemma_settled_count_monotonic(d, f);
    assert forall|i: int| 0 <= i < d.len() implies f[i] == d[i] by {
        assert(d[i].wf());
        assert(d[i].value is Some <==> f[i].value is Some);
        if d[i].candidates.len() == 1 {
            assert(d[i].candidates.contains(d[i].candidates[0]));
        }
    }
    assert(f =~= d);
}

/// Elimination never unsettles a cell, and what it leaves behind is a fixed
/// point: a further round, and so a further run, changes nothing.
pub proof fn lemma_elimination_reaches_fixed_point(cells: Seq<CellView>)
    requires
        cells_wf(cells),
    ensures
        settled_count(elimination_pass(cells)) >= settled_count(cells),
        settled_count(elimination_fixpoint(cells)) >= settled_count(cells),
        elimination_pass(elimination_fixpoint(cells)) == elimination_fixpoint(cells),
        elimination_fixpoint(elimination_fixpoint(cells)) == elimination_fixpoint(cells),
        cells_wf(elimination_fixpoint(cells)),
        refines(cells, elimination_fixpoint(cells)),
    decreases cells.len() - settled_count(cells),
{
    let next = elimination_pass(cells);
    lemma_elimination_pass_refines(cells);
    lemma_elimination_pass_len(cells);
    lemma_settled_count_monotonic(next, next);
    if settled_count(next) > settled_count(cells) {
        lemma_elimination_reaches_fixed_point(next);
        lemma_refines_order(cells, next, elimination_fixpoint(next));
    } else {
        lemma_stalled_round_is_fixed(cells);
    }
}

} // verus!
