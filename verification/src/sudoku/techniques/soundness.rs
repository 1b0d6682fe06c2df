//! Propagation loses no solution.

use crate::sudoku::domain::cell::CellView;
use crate::sudoku::domain::cell_grid::{cells_wf, lemma_settled_count_monotonic, settled_count};
use crate::sudoku::domain::units::{
    all_blocks, all_columns, all_rows, is_unit, lemma_unit_shape, lemma_units_are_wf,
};
use crate::sudoku::domain::validatable_units::group_has;
use crate::sudoku::solution::{
    cell_admits, cell_refines, consistent, distinct_on, lemma_consistent_before,
    lemma_refines_order, lemma_refines_weight, refines, solves, weight,
};
use crate::sudoku::solver::simple::{
    complete_all, discount_group, discount_groups, elimination_fixpoint, elimination_pass,
    lemma_discount_groups_refines, lemma_discount_values_refines, lemma_elimination_pass_len,
    lemma_elimination_pass_refines, used_values,
};
use crate::sudoku::techniques::conjugate_groups::{
    advances, close_groups, closed_fixpoint, closed_group_pass, closed_keys, confine, confine_all,
    confined_count, is_closed, lemma_close_groups_advances, lemma_closed_group_pass_advances,
    lemma_confine_all_advances, propagate, within,
};
use crate::sudoku::techniques::implicitly_solved::lemma_elimination_reaches_fixed_point;
use vstd::prelude::*;

verus! {

/// Every solution of `before` is a solution of `after`.
pub open spec fn keeps_solutions(before: Seq<CellView>, after: Seq<CellView>) -> bool {
    forall|s: Seq<u8>| #[trigger] solves(s, before) ==> solves(s, after)
}

/// Each used value is the value of a settled cell of the group.
pub proof fn lemma_used_value_origin(cells: Seq<CellView>, group: Seq<usize>, value: u8)
    requires
        used_values(cells, group).contains(value),
    ensures
        exists|k: int|
            0 <= k < group.len() && cells[#[trigger] group[k] as int].value == Some(value),
    decreases group.len(),
{
    if group.len() > 0 {
        let front = group.drop_last();
        let rest = used_values(cells, front);
        if cells[group.last() as int].value == Some(value) {
            assert(group[group.len() - 1] == group.last());
        } else {
            let used = used_values(cells, group);
            let i = choose|i: int| 0 <= i < used.len() && used[i] == value;
            assert(rest[i] == value);
            assert(rest.contains(value));
            lemma_used_value_origin(cells, front, value);
            let k = choose|k: int|
                0 <= k < front.len() && cells[#[trigger] front[k] as int].value == Some(value);
            assert(group[k] == front[k]);
        }
    }
}

/// The discount step of a unit keeps every solution.
pub proof fn lemma_discount_group_keeps(s: Seq<u8>, cells: Seq<CellView>, group: Seq<usize>)
    requires
        cells_wf(cells),
        solves(s, cells),
        is_unit(group),
    ensures
        solves(s, discount_group(cells, group)),
{
    let used = used_values(cells, group);
    let after = discount_group(cells, group);
    lemma_unit_shape(group);
    assert(distinct_on(s, group));
    assert forall|i: int| 0 <= i < s.len() implies #[trigger] cell_admits(after[i], s[i]) by {
        assert(cell_admits(cells[i], s[i]));
        assert(cells[i].wf());
        lemma_discount_values_refines(cells[i], used);
        if group_has(group, i) && cells[i].value is None && used.contains(s[i]) {
            lemma_used_value_origin(cells, group, s[i]);
            let k = choose|k: int|
                0 <= k < group.len() && cells[#[trigger] group[k] as int].value == Some(s[i]);
            let q = choose|q: int| 0 <= q < group.len() && #[trigger] group[q] == i;
            assert(cell_admits(cells[group[k] as int], s[group[k] as int]));
            if k < q {
                assert(s[group[k] as int] != s[group[q] as int]);
            } else if q < k {
                assert(s[group[q] as int] != s[group[k] as int]);
            }
        }
    }
}

/// The discount steps of some units keep every solution.
pub proof fn lemma_discount_groups_keep(s: Seq<u8>, cells: Seq<CellView>, groups: Seq<Seq<usize>>)
    requires
        cells_wf(cells),
        solves(s, cells),
        forall|n: int| 0 <= n < groups.len() ==> is_unit(#[trigger] groups[n]),
    ensures
        solves(s, discount_groups(cells, groups)),
    decreases groups.len(),
{
    if groups.len() > 0 {
        let front = groups.drop_last();
        assert forall|n: int| 0 <= n < front.len() implies is_unit(#[trigger] front[n]) by {
            assert(front[n] == groups[n]);
        }
        lemma_discount_groups_keep(s, cells, front);
        lemma_discount_groups_refines(cells, front);
        assert(is_unit(groups[groups.len() - 1]));
        lemma_discount_group_keeps(s, discount_groups(cells, front), groups.last());
    }
}

/// Settling the cells with a single candidate keeps every solution.
pub proof fn lemma_complete_all_keeps(s: Seq<u8>, cells: Seq<CellView>)
    requires
        cells_wf(cells),
        solves(s, cells),
    ensures
        solves(s, complete_all(cells)),
{
    let after = complete_all(cells);
    assert forall|i: int| 0 <= i < s.len() implies #[trigger] cell_admits(after[i], s[i]) by {
        assert(cell_admits(cells[i], s[i]));
        assert(cells[i].wf());
        if cells[i].candidates.len() == 1 && cells[i].value is None {
            let k = choose|k: int|
                0 <= k < cells[i].candidates.len() && cells[i].candidates[k] == s[i];
            assert(k == 0);
        }
    }
}

/// A round of elimination keeps every solution.
pub proof fn lemma_elimination_pass_keeps(cells: Seq<CellView>)
    requires
        cells_wf(cells),
    ensures
        keeps_solutions(cells, elimination_pass(cells)),
{
    assert forall|s: Seq<u8>|
        #[trigger] solves(s, cells) implies solves(s, elimination_pass(cells)) by {
        let a = discount_groups(cells, all_rows());
        let b = discount_groups(a, all_columns());
        let c = discount_groups(b, all_blocks());
        lemma_units_are_wf(cells);
        lemma_discount_groups_refines(cells, all_rows());
        lemma_discount_groups_refines(a, all_columns());
        lemma_discount_groups_refines(b, all_blocks());
        lemma_discount_groups_keep(s, cells, all_rows());
        lemma_discount_groups_keep(s, a, all_columns());
        lemma_discount_groups_keep(s, b, all_blocks());
        lemma_complete_all_keeps(s, c);
    }
}

/// Elimination keeps every solution.
pub proof fn lemma_elimination_keeps(cells: Seq<CellView>)
    requires
        cells_wf(cells),
    ensures
        keeps_solutions(cells, elimination_fixpoint(cells)),
    decreases cells.len() - settled_count(cells),
{
    let next = elimination_pass(cells);
    lemma_elimination_pass_keeps(cells);
    lemma_elimination_pass_refines(cells);
    lemma_elimination_pass_len(cells);
    lemma_settled_count_monotonic(next, next);
    if settled_count(next) > settled_count(cells) {
        lemma_elimination_keeps(next);
    }
}

/// The cell at place `k` of the group is unsettled and has all its
/// candidates in `key`.
pub open spec fn confined_at(
    cells: Seq<CellView>,
    group: Seq<usize>,
    key: Seq<u8>,
    k: int,
) -> bool {
    &&& 0 <= k < group.len()
    &&& cells[group[k] as int].value is None
    &&& within(cells[group[k] as int], key)
}

/// The values that `s` gives to the unsettled cells of the group whose
/// candidates are all in `key`.
pub open spec fn confined_values(
    s: Seq<u8>,
    cells: Seq<CellView>,
    group: Seq<usize>,
    key: Seq<u8>,
) -> Seq<u8>
    decreases group.len(),
{
    if group.len() == 0 {
        Seq::empty()
    } else {
        let rest = confined_values(s, cells, group.drop_last(), key);
        let cell = cells[group.last() as int];
        if cell.value is None && within(cell, key) {
            rest.push(s[group.last() as int])
        } else {
            rest
        }
    }
}

/// There are as many confined values as confined cells, each is a value of
/// `key` and the value of a confined cell, and no two are the same.
proof fn lemma_confined_values(s: Seq<u8>, cells: Seq<CellView>, group: Seq<usize>, key: Seq<u8>)
    requires
        consistent(s, cells),
        distinct_on(s, group),
        forall|k: int| 0 <= k < group.len() ==> #[trigger] group[k] < cells.len(),
    ensures
        confined_values(s, cells, group, key).len() == confined_count(cells, group, key),
        confined_values(s, cells, group, key).no_duplicates(),
        forall|x: u8| #[trigger]
            confined_values(s, cells, group, key).contains(x) ==> key.contains(x) && exists|k: int|
                #[trigger] confined_at(cells, group, key, k) && s[group[k] as int] == x,
    decreases group.len(),
{
    if group.len() > 0 {
        let front = group.drop_last();
        let end = group.len() - 1;
        let last = group.last() as int;
        assert forall|i: int, j: int| 0 <= i < j < front.len() implies s[#[trigger] front[i] as int]
            != s[#[trigger] front[j] as int] by {
            assert(front[i] == group[i]);
            assert(front[j] == group[j]);
        }
        assert forall|k: int| 0 <= k < front.len() implies #[trigger] front[k] < cells.len() by {
            assert(front[k] == group[k]);
        }
        lemma_confined_values(s, cells, front, key);
        let rest = confined_values(s, cells, front, key);
        let all = confined_values(s, cells, group, key);
        assert(group[end] == group.last());
        assert(cell_admits(cells[last], s[last]));
        assert forall|x: u8| #[trigger] all.contains(x) implies key.contains(x) && exists|k: int|
            #[trigger] confined_at(cells, group, key, k) && s[group[k] as int] == x by {
            let i = choose|i: int| 0 <= i < all.len() && all[i] == x;
            if i < rest.len() {
                assert(rest[i] == x);
                assert(rest.contains(x));
                let k = choose|k: int|
                    #[trigger] confined_at(cells, front, key, k) && s[front[k] as int] == x;
                assert(group[k] == front[k]);
                assert(confined_at(cells, group, key, k));
            } else {
                assert(cells[last].candidates.contains(x));
                assert(confined_at(cells, group, key, end));
            }
        }
        if cells[last].value is None && within(cells[last], key) {
            if rest.contains(s[last]) {
                let k = choose|k: int|
                    #[trigger] confined_at(cells, front, key, k) && s[front[k] as int] == s[last];
                assert(group[k] == front[k]);
                assert(s[group[k] as int] != s[group[end] as int]);
            }
            assert(all.no_duplicates());
        }
    }
}

/// A list without repetition that is as long as another such list and holds
/// only values of it holds all its values.
proof fn lemma_pigeonhole(inner: Seq<u8>, outer: Seq<u8>)
    requires
        inner.no_duplicates(),
        outer.no_duplicates(),
        inner.len() == outer.len(),
        forall|x: u8| #[trigger] inner.contains(x) ==> outer.contains(x),
    ensures
        forall|x: u8| #[trigger] outer.contains(x) ==> inner.contains(x),
{
    inner.unique_seq_to_set();
    outer.unique_seq_to_set();
    vstd::seq_lib::seq_to_set_is_finite(inner);
    vstd::seq_lib::seq_to_set_is_finite(outer);
    assert(inner.to_set().subset_of(outer.to_set()));
    vstd::set_lib::lemma_subset_equality(inner.to_set(), outer.to_set());
    assert forall|x: u8| #[trigger] outer.contains(x) implies inner.contains(x) by {
        assert(outer.to_set().contains(x));
        assert(inner.to_set().contains(x));
    }
}

/// Applying a key that was closed in the group keeps every solution.
pub proof fn lemma_confine_keeps(
    s: Seq<u8>,
    start: Seq<CellView>,
    now: Seq<CellView>,
    group: Seq<usize>,
    key: Seq<u8>,
)
    requires
        cells_wf(start),
        cells_wf(now),
        refines(start, now),
        solves(s, now),
        is_unit(group),
        key.no_duplicates(),
        is_closed(start, group, key),
    ensures
        solves(s, confine(now, group, key)),
{
    let after = confine(now, group, key);
    lemma_unit_shape(group);
    lemma_consistent_before(s, start, now);
    assert(distinct_on(s, group));
    lemma_confined_values(s, start, group, key);
    let taken = confined_values(s, start, group, key);
    lemma_pigeonhole(taken, key);
    assert forall|i: int| 0 <= i < s.len() implies #[trigger] cell_admits(after[i], s[i]) by {
        assert(cell_admits(now[i], s[i]));
        assert(now[i].wf());
        lemma_discount_values_refines(now[i], key);
        if group_has(group, i) && !within(now[i], key) && now[i].value is None && key.contains(
            s[i],
        ) {
            assert(taken.contains(s[i]));
            let k = choose|k: int|
                #[trigger] confined_at(start, group, key, k) && s[group[k] as int] == s[i];
            let q = choose|q: int| 0 <= q < group.len() && #[trigger] group[q] == i;
            if k < q {
                assert(s[group[k] as int] != s[group[q] as int]);
            } else if q < k {
                assert(s[group[q] as int] != s[group[k] as int]);
            }
            assert(group[k] == i);
            assert(cell_refines(start[i], now[i]));
            assert(within(now[i], key));
        }
    }
}

/// The keys found are candidate lists of unsettled cells and closed.
proof fn lemma_closed_keys(cells: Seq<CellView>, group: Seq<usize>, upto: int)
    requires
        cells_wf(cells),
        0 <= upto <= group.len(),
        forall|k: int| 0 <= k < group.len() ==> #[trigger] group[k] < cells.len(),
    ensures
        forall|n: int|
            0 <= n < closed_keys(cells, group, upto).len() ==> (#[trigger] closed_keys(
                cells,
                group,
                upto,
            )[n]).no_duplicates() && is_closed(cells, group, closed_keys(cells, group, upto)[n]),
    decreases upto,
{
    if upto > 0 {
        lemma_closed_keys(cells, group, upto - 1);
        let rest = closed_keys(cells, group, upto - 1);
        let all = closed_keys(cells, group, upto);
        assert(cells[group[upto - 1] as int].wf());
        assert forall|n: int| 0 <= n < all.len() implies (#[trigger] all[n]).no_duplicates()
            && is_closed(cells, group, all[n]) by {
            if n < rest.len() {
                assert(all[n] == rest[n]);
            }
        }
    }
}

/// Applying keys that were closed in the group keeps every solution.
proof fn lemma_confine_all_keeps(
    s: Seq<u8>,
    start: Seq<CellView>,
    group: Seq<usize>,
    keys: Seq<Seq<u8>>,
)
    requires
        cells_wf(start),
        solves(s, start),
        is_unit(group),
        forall|n: int|
            0 <= n < keys.len() ==> (#[trigger] keys[n]).no_duplicates() && is_closed(
                start,
                group,
                keys[n],
            ),
    ensures
        solves(s, confine_all(start, group, keys)),
    decreases keys.len(),
{
    if keys.len() > 0 {
        let front = keys.drop_last();
        assert forall|n: int| 0 <= n < front.len() implies (#[trigger] front[n]).no_duplicates()
            && is_closed(start, group, front[n]) by {
            assert(front[n] == keys[n]);
        }
        lemma_confine_all_keeps(s, start, group, front);
        lemma_confine_all_advances(start, group, front);
        assert(keys[keys.len() - 1] == keys.last());
        lemma_confine_keeps(s, start, confine_all(start, group, front), group, keys.last());
    }
}

/// The closed-group deduction in some units keeps every solution.
pub proof fn lemma_close_groups_keep(s: Seq<u8>, cells: Seq<CellView>, groups: Seq<Seq<usize>>)
    requires
        cells_wf(cells),
        solves(s, cells),
        forall|n: int| 0 <= n < groups.len() ==> is_unit(#[trigger] groups[n]),
    ensures
        solves(s, close_groups(cells, groups)),
    decreases groups.len(),
{
    if groups.len() > 0 {
        let front = groups.drop_last();
        let last = groups.last();
        assert forall|n: int| 0 <= n < front.len() implies is_unit(#[trigger] front[n]) by {
            assert(front[n] == groups[n]);
        }
        lemma_close_groups_keep(s, cells, front);
        lemma_close_groups_advances(cells, front);
        let before = close_groups(cells, front);
        assert(is_unit(groups[groups.len() - 1]));
        lemma_unit_shape(last);
        lemma_closed_keys(before, last, last.len() as int);
        lemma_confine_all_keeps(s, before, last, closed_keys(before, last, last.len() as int));
    }
}

/// A closed-group pass keeps every solution.
pub proof fn lemma_closed_group_pass_keeps(cells: Seq<CellView>)
    requires
        cells_wf(cells),
    ensures
        keeps_solutions(cells, closed_group_pass(cells)),
{
    assert forall|s: Seq<u8>|
        #[trigger] solves(s, cells) implies solves(s, closed_group_pass(cells)) by {
        lemma_units_are_wf(cells);
        lemma_close_groups_keep(s, cells, all_rows());
        lemma_close_groups_keep(s, cells, all_columns());
        lemma_close_groups_keep(s, cells, all_blocks());
    }
}

/// Closed-group passes with elimination in between advance the grid and
/// keep every solution.
pub proof fn lemma_closed_fixpoint_sound(cells: Seq<CellView>)
    requires
        cells_wf(cells),
    ensures
        advances(cells, closed_fixpoint(cells)),
        keeps_solutions(cells, closed_fixpoint(cells)),
        closed_group_pass(closed_fixpoint(cells)) == closed_fixpoint(cells),
    decreases weight(cells),
{
    let next = closed_group_pass(cells);
    lemma_closed_group_pass_advances(cells);
    lemma_closed_group_pass_keeps(cells);
    if next != cells {
        let settled = elimination_fixpoint(next);
        lemma_elimination_reaches_fixed_point(next);
        lemma_elimination_keeps(next);
        lemma_refines_weight(next, settled);
        lemma_closed_fixpoint_sound(settled);
        lemma_refines_order(cells, next, settled);
        lemma_refines_order(cells, settled, closed_fixpoint(settled));
        lemma_refines_weight(settled, closed_fixpoint(settled));
    } else {
        lemma_refines_order(cells, cells, cells);
    }
}

/// Propagation refines the grid, keeps the cells' invariant and keeps every
/// solution.
pub proof fn lemma_propagate_sound(cells: Seq<CellView>)
    requires
        cells_wf(cells),
    ensures
        cells_wf(propagate(cells)),
        refines(cells, propagate(cells)),
        weight(propagate(cells)) <= weight(cells),
        keeps_solutions(cells, propagate(cells)),
{
    let settled = elimination_fixpoint(cells);
    lemma_elimination_reaches_fixed_point(cells);
    lemma_elimination_keeps(cells);
    lemma_refines_weight(cells, settled);
    lemma_closed_fixpoint_sound(settled);
    lemma_refines_order(cells, settled, propagate(cells));
    lemma_refines_weight(cells, propagate(cells));
}

} // verus!
