//! Solutions of a puzzle, and what it means to get closer to one.

use super::domain::cell::{is_domain_value, CellView};
use super::domain::cell_grid::cells_wf;
use super::domain::consts::PUZZLE_TOTAL_CELL_COUNT;
use super::domain::puzzle::{puzzle_is_complete, puzzle_is_valid};
use super::domain::units::{is_unit, lemma_unit_shape};
use super::domain::validatable_units::{group_is_complete, group_is_valid};
use vstd::prelude::*;

verus! {

/// The values `s` gives to the cells of `group` differ from one another.
pub open spec fn distinct_on(s: Seq<u8>, group: Seq<usize>) -> bool {
    forall|i: int, j: int|
        0 <= i < j < group.len() ==> s[#[trigger] group[i] as int] != s[#[trigger] group[j] as int]
}

/// A full grid of domain values in which no row, column or block holds a
/// value twice.
pub open spec fn is_solution(s: Seq<u8>) -> bool {
    &&& s.len() == PUZZLE_TOTAL_CELL_COUNT
    &&& forall|i: int| 0 <= i < s.len() ==> is_domain_value(#[trigger] s[i])
    &&& forall|group: Seq<usize>| #[trigger] is_unit(group) ==> distinct_on(s, group)
}

/// Whether the cell could end up holding `value`: a settled cell holds it, an
/// unsettled one still has it among its candidates.
pub open spec fn cell_admits(cell: CellView, value: u8) -> bool {
    match cell.value {
        Some(v) => v == value,
        None => cell.candidates.contains(value),
    }
}

/// Whether every cell could end up holding what `s` gives it.
pub open spec fn consistent(s: Seq<u8>, cells: Seq<CellView>) -> bool {
    &&& s.len() == cells.len()
    &&& forall|i: int| 0 <= i < s.len() ==> #[trigger] cell_admits(cells[i], s[i])
}

/// `s` is a solution of the puzzle that `cells` poses.
pub open spec fn solves(s: Seq<u8>, cells: Seq<CellView>) -> bool {
    is_solution(s) && consistent(s, cells)
}

/// The puzzle has a solution.
pub open spec fn has_solution(cells: Seq<CellView>) -> bool {
    exists|s: Seq<u8>| solves(s, cells)
}

/// What an unsettled cell still costs a search: itself and each candidate.
pub open spec fn cell_weight(cell: CellView) -> nat {
    if cell.value is None {
        1 + cell.candidates.len()
    } else {
        0
    }
}

/// The sum of the cells' weights.  It bounds the work that is left.
pub open spec fn weight(cells: Seq<CellView>) -> nat
    decreases cells.len(),
{
    if cells.len() == 0 {
        0
    } else {
        weight(cells.drop_last()) + cell_weight(cells.last())
    }
}

/// `after` is `before` with more known: a settled cell is as it was, an
/// unsettled one lost candidates or was settled on one of them.
pub open spec fn cell_refines(before: CellView, after: CellView) -> bool {
    &&& cell_weight(after) <= cell_weight(before)
    &&& match before.value {
        Some(v) => after.value == Some(v),
        None => match after.value {
            Some(w) => before.candidates.contains(w),
            None => forall|x: u8| after.candidates.contains(x) ==> before.candidates.contains(x),
        },
    }
}

/// Every cell of `after` refines the cell of `before` in its place.
pub open spec fn refines(before: Seq<CellView>, after: Seq<CellView>) -> bool {
    &&& before.len() == after.len()
    &&& forall|i: int| 0 <= i < before.len() ==> #[trigger] cell_refines(before[i], after[i])
}

/// The values of a grid, 0 where a cell is not settled.
pub open spec fn grid_values(cells: Seq<CellView>) -> Seq<u8> {
    Seq::new(
        cells.len(),
        |i: int|
            match cells[i].value {
                Some(v) => v,
                None => 0u8,
            },
    )
}

/// Refinement is reflexive and transitive.
pub proof fn lemma_refines_order(a: Seq<CellView>, b: Seq<CellView>, c: Seq<CellView>)
    ensures
        refines(a, a),
        refines(a, b) && refines(b, c) ==> refines(a, c),
{
    assert forall|i: int| 0 <= i < a.len() implies #[trigger] cell_refines(a[i], a[i]) by {}
    if refines(a, b) && refines(b, c) {
        assert forall|i: int| 0 <= i < a.len() implies #[trigger] cell_refines(a[i], c[i]) by {
            assert(cell_refines(a[i], b[i]));
            assert(cell_refines(b[i], c[i]));
        }
    }
}

/// What a refinement still admits, the unrefined puzzle admitted too.
pub proof fn lemma_consistent_before(s: Seq<u8>, before: Seq<CellView>, after: Seq<CellView>)
    requires
        refines(before, after),
        consistent(s, after),
    ensures
        consistent(s, before),
{
    assert forall|i: int| 0 <= i < s.len() implies #[trigger] cell_admits(before[i], s[i]) by {
        assert(cell_refines(before[i], after[i]));
        assert(cell_admits(after[i], s[i]));
    }
}

/// A complete grid is a solution, and it solves every puzzle it refines.
pub proof fn lemma_complete_is_solution(before: Seq<CellView>, after: Seq<CellView>)
    requires
        cells_wf(after),
        puzzle_is_complete(after),
        refines(before, after),
    ensures
        solves(grid_values(after), after),
        solves(grid_values(after), before),
{
    let s = grid_values(after);
    assert forall|i: int| 0 <= i < after.len() implies after[i].value is Some by {
        let group = super::domain::units::row_indices(i / 9);
        assert(is_unit(group));
        assert(group_is_complete(after, group));
        assert(group[i % 9] == i);
    }
    assert forall|group: Seq<usize>| #[trigger] is_unit(group) implies distinct_on(s, group) by {
        lemma_unit_shape(group);
        assert(group_is_complete(after, group));
        assert forall|i: int, j: int| 0 <= i < j < group.len() implies s[#[trigger] group[i] as int]
            != s[#[trigger] group[j] as int] by {
            assert(after[group[i] as int].value is Some);
            assert(after[group[j] as int].value is Some);
        }
    }
    assert forall|i: int| 0 <= i < s.len() implies is_domain_value(#[trigger] s[i]) by {
        assert(after[i].wf());
    }
    assert forall|i: int| 0 <= i < s.len() implies #[trigger] cell_admits(after[i], s[i]) by {}
    lemma_consistent_before(s, before, after);
}

/// A puzzle in which a unit holds a value twice has no solution.
pub proof fn lemma_solvable_is_valid(s: Seq<u8>, cells: Seq<CellView>)
    requires
        solves(s, cells),
    ensures
        puzzle_is_valid(cells),
{
    assert forall|group: Seq<usize>|
        #[trigger] is_unit(group) implies group_is_valid(cells, group) by {
        lemma_unit_shape(group);
        assert(distinct_on(s, group));
        assert forall|i: int, j: int|
            0 <= i < j < group.len() && cells[#[trigger] group[i] as int].value is Some
                implies cells[group[i] as int].value
            != cells[#[trigger] group[j] as int].value by {
            assert(cell_admits(cells[group[i] as int], s[group[i] as int]));
            assert(cell_admits(cells[group[j] as int], s[group[j] as int]));
        }
    }
}

/// A solution of a complete grid is the grid itself.
pub proof fn lemma_complete_has_one_solution(s: Seq<u8>, cells: Seq<CellView>)
    requires
        cells.len() == PUZZLE_TOTAL_CELL_COUNT,
        puzzle_is_complete(cells),
        consistent(s, cells),
    ensures
        s == grid_values(cells),
{
    assert forall|i: int| 0 <= i < s.len() implies s[i] == grid_values(cells)[i] by {
        let group = super::domain::units::row_indices(i / 9);
        assert(is_unit(group));
        assert(group_is_complete(cells, group));
        assert(group[i % 9] == i);
        assert(cell_admits(cells[i], s[i]));
    }
    assert(s =~= grid_values(cells));
}

/// Comparing the weights of two grids cell by cell.
pub proof fn lemma_weight_by_cell(before: Seq<CellView>, after: Seq<CellView>)
    requires
        before.len() == after.len(),
        forall|i: int|
            0 <= i < before.len() ==> cell_weight(#[trigger] after[i]) <= cell_weight(before[i]),
    ensures
        weight(after) <= weight(before),
        forall|k: int|
            0 <= k < before.len() && cell_weight(#[trigger] after[k]) < cell_weight(before[k])
                ==> weight(after) < weight(before),
        weight(after) == weight(before) ==> forall|i: int|
            0 <= i < before.len() ==> cell_weight(#[trigger] after[i]) == cell_weight(before[i]),
    decreases before.len(),
{
    if before.len() > 0 {
        let b = before.drop_last();
        let a = after.drop_last();
        assert forall|i: int|
            0 <= i < b.len() implies cell_weight(#[trigger] a[i]) <= cell_weight(b[i]) by {
            assert(a[i] == after[i]);
        }
        lemma_weight_by_cell(b, a);
        assert(cell_weight(after[after.len() - 1]) <= cell_weight(before[before.len() - 1]));
        assert forall|k: int|
            0 <= k < before.len() && cell_weight(#[trigger] after[k]) < cell_weight(before[k])
                implies weight(after)
            < weight(before) by {
            if k < b.len() {
                assert(a[k] == after[k]);
            }
        }
        if weight(after) == weight(before) {
            assert forall|i: int| 0 <= i < before.len() implies cell_weight(#[trigger] after[i])
                == cell_weight(before[i]) by {
                if i < b.len() {
                    assert(a[i] == after[i]);
                }
            }
        }
    }
}

/// A refinement weighs no more.
pub proof fn lemma_refines_weight(before: Seq<CellView>, after: Seq<CellView>)
    requires
        refines(before, after),
    ensures
        weight(after) <= weight(before),
{
    assert forall|i: int|
        0 <= i < before.len()
            implies cell_weight(#[trigger] after[i]) <= cell_weight(before[i]) by {
        assert(cell_refines(before[i], after[i]));
    }
    lemma_weight_by_cell(before, after);
}

} // verus!
