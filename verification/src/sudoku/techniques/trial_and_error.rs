//! Search: where propagation stalls, a value is tried in a copy of the puzzle.

use crate::sudoku::domain::cell::{lemma_cell_operations_keep_wf, lemma_without, Cell, CellView};
use crate::sudoku::domain::cell_grid::cells_wf;
use crate::sudoku::domain::puzzle::{puzzle_is_complete, puzzle_is_valid, Puzzle};
use crate::sudoku::domain::units::is_unit;
use crate::sudoku::domain::validatable_units::{group_is_complete, PuzzleValidator};
use crate::sudoku::solution::{
    cell_admits, cell_refines, cell_weight, grid_values, has_solution,
    lemma_complete_has_one_solution, lemma_complete_is_solution, lemma_consistent_before,
    lemma_refines_order, lemma_refines_weight, lemma_solvable_is_valid, lemma_weight_by_cell,
    refines, solves, weight,
};
use crate::sudoku::techniques::conjugate_groups::{
    eliminate_candidates_from_closed_groups, propagate,
};
use crate::sudoku::techniques::soundness::{keeps_solutions, lemma_propagate_sound};
use vstd::prelude::*;

verus! {

/// A hypothesis: that the cell at index `cell` of the grid holds
/// `trial_value`.
pub struct Trial {
    pub cell: usize,
    pub trial_value: u8,
}

/// The cell at `index` is unsettled and every cell before it is settled.
pub open spec fn is_first_unsettled(cells: Seq<CellView>, index: int) -> bool {
    &&& 0 <= index < cells.len()
    &&& cells[index].value is None
    &&& forall|j: int| 0 <= j < index ==> (#[trigger] cells[j]).value is Some
}

/// `value` is the least candidate of the cell.
pub open spec fn is_least_candidate(cell: CellView, value: u8) -> bool {
    &&& cell.candidates.contains(value)
    &&& forall|x: u8| #[trigger] cell.candidates.contains(x) ==> value <= x
}

/// The trial names the first unsettled cell, row by row, and its least
/// candidate.
pub open spec fn is_next_trial(cells: Seq<CellView>, trial: Trial) -> bool {
    is_first_unsettled(cells, trial.cell as int) && is_least_candidate(
        cells[trial.cell as int],
        trial.trial_value,
    )
}

/// There is nothing to try: every cell is settled, or the first unsettled
/// cell has no candidate left.
pub open spec fn no_trial(cells: Seq<CellView>) -> bool {
    ||| forall|j: int| 0 <= j < cells.len() ==> (#[trigger] cells[j]).value is Some
    ||| exists|i: int| is_first_unsettled(cells, i) && (#[trigger] cells[i]).candidates.len() == 0
}

/// The grid with the cell at `index` settled on `value`.
pub open spec fn with_hypothesis(cells: Seq<CellView>, index: int, value: u8) -> Seq<CellView> {
    cells.update(index, cells[index].set_value(value))
}

/// The grid with `value` discounted in the cell at `index`.
pub open spec fn with_rejection(cells: Seq<CellView>, index: int, value: u8) -> Seq<CellView> {
    cells.update(index, cells[index].discount_value(value))
}

impl Trial {
    /// Whether the trial names an unsettled cell of the grid and one of its
    /// candidates.
    pub open spec fn fits(&self, cells: Seq<CellView>) -> bool {
        &&& self.cell < cells.len()
        &&& cells[self.cell as int].value is None
        &&& cells[self.cell as int].candidates.contains(self.trial_value)
    }

    /// The hypothesis failed: its value is no candidate of the cell any more.
    pub fn reject(&self, puzzle: &mut Puzzle)
        requires
            self.cell < old(puzzle)@.len(),
        ensures
            final(puzzle)@ == with_rejection(old(puzzle)@, self.cell as int, self.trial_value),
            final(puzzle).rows == old(puzzle).rows,
            final(puzzle).columns == old(puzzle).columns,
            final(puzzle).blocks == old(puzzle).blocks,
            old(puzzle).wf() ==> final(puzzle).wf(),
    {
        let ghost before = puzzle@;
        puzzle.cell_grid.grid[self.cell].discount_value(self.trial_value);
        proof {
            assert(puzzle@ =~= with_rejection(before, self.cell as int, self.trial_value));
            if old(puzzle).wf() {
                assert forall|i: int|
                    0 <= i < puzzle@.len() implies (#[trigger] puzzle@[i]).wf() by {
                    assert(before[i].wf());
                    lemma_cell_operations_keep_wf(before[i], self.trial_value);
                }
            }
        }
    }

    /// Makes the hypothesis in a copy of the puzzle: settles the cell there.
    pub fn apply_hypothesis(&self, clone: &mut Puzzle)
        requires
            self.cell < old(clone)@.len(),
        ensures
            final(clone)@ == with_hypothesis(old(clone)@, self.cell as int, self.trial_value),
            final(clone).rows == old(clone).rows,
            final(clone).columns == old(clone).columns,
            final(clone).blocks == old(clone).blocks,
            old(clone).wf() ==> final(clone).wf(),
    {
        let ghost before = clone@;
        clone.cell_grid.grid[self.cell].set_value(self.trial_value);
        proof {
            assert(clone@ =~= with_hypothesis(before, self.cell as int, self.trial_value));
            if old(clone).wf() {
                assert forall|i: int| 0 <= i < clone@.len() implies (#[trigger] clone@[i]).wf() by {
                    assert(before[i].wf());
                    lemma_cell_operations_keep_wf(before[i], self.trial_value);
                }
            }
        }
    }

    /// The hypothesis held: settles the cell in the puzzle itself.
    pub fn accept(&self, puzzle: &mut Puzzle)
        requires
            self.cell < old(puzzle)@.len(),
        ensures
            final(puzzle)@ == with_hypothesis(old(puzzle)@, self.cell as int, self.trial_value),
            final(puzzle).rows == old(puzzle).rows,
            final(puzzle).columns == old(puzzle).columns,
            final(puzzle).blocks == old(puzzle).blocks,
            old(puzzle).wf() ==> final(puzzle).wf(),
    {
        self.apply_hypothesis(puzzle);
    }
}

/// The least candidate of the cell, if it has any.
fn least_candidate(cell: &Cell) -> (least: Option<u8>)
    ensures
        match least {
            Some(value) => is_least_candidate(cell@, value),
            None => cell@.candidates.len() == 0,
        },
{
    if cell.potentially_valid_values.len() == 0 {
        return None;
    }
    let mut least = cell.potentially_valid_values[0];
    let mut k: usize = 1;
    assert(cell@.candidates[0] == least);
    while k < cell.potentially_valid_values.len()
        invariant
            1 <= k <= cell.potentially_valid_values.len(),
            cell@.candidates.contains(least),
            forall|j: int| 0 <= j < k ==> least <= cell@.candidates[j],
        decreases cell.potentially_valid_values.len() - k,
    {
        if cell.potentially_valid_values[k] < least {
            least = cell.potentially_valid_values[k];
            assert(cell@.candidates[k as int] == least);
        }
        k += 1;
    }
    Some(least)
}

/// The next hypothesis to try: the first unsettled cell, row by row, and
/// its least candidate.
pub fn try_get_next_trial(sudoku: &Puzzle) -> (trial: Option<Trial>)
    ensures
        match trial {
            Some(trial) => is_next_trial(sudoku@, trial),
            None => no_trial(sudoku@),
        },
{
    let mut i: usize = 0;
    while i < sudoku.cell_grid.grid.len()
        invariant
            i <= sudoku.cell_grid.grid.len(),
            forall|j: int| 0 <= j < i ==> (#[trigger] sudoku@[j]).value is Some,
        decreases sudoku.cell_grid.grid.len() - i,
    {
        let cell = &sudoku.cell_grid.grid[i];
        if cell.value.is_none() {
            assert(is_first_unsettled(sudoku@, i as int));
            return match least_candidate(cell) {
                Some(value) => Some(Trial { cell: i, trial_value: value }),
                None => None,
            };
        }
        i += 1;
    }
    None
}

/// Making a hypothesis refines the grid and makes it lighter; the solutions
/// that agree with the hypothesis stay.
pub proof fn lemma_hypothesis(cells: Seq<CellView>, index: int, value: u8)
    requires
        cells_wf(cells),
        0 <= index < cells.len(),
        cells[index].value is None,
        cells[index].candidates.contains(value),
    ensures
        cells_wf(with_hypothesis(cells, index, value)),
        refines(cells, with_hypothesis(cells, index, value)),
        weight(with_hypothesis(cells, index, value)) < weight(cells),
        forall|s: Seq<u8>|
            #[trigger] solves(s, cells) && s[index] == value ==> solves(
                s,
                with_hypothesis(cells, index, value),
            ),
{
    let after = with_hypothesis(cells, index, value);
    assert(cells[index].wf());
    lemma_cell_operations_keep_wf(cells[index], value);
    assert forall|i: int| 0 <= i < cells.len() implies (#[trigger] after[i]).wf() && cell_refines(
        cells[i],
        after[i],
    ) && cell_weight(after[i]) <= cell_weight(cells[i]) by {
        assert(cells[i].wf());
    }
    lemma_weight_by_cell(cells, after);
    assert(cell_weight(after[index]) < cell_weight(cells[index]));
    assert forall|s: Seq<u8>| #[trigger] solves(s, cells) && s[index] == value implies solves(
        s,
        after,
    ) by {
        assert forall|i: int| 0 <= i < s.len() implies #[trigger] cell_admits(after[i], s[i]) by {
            assert(cell_admits(cells[i], s[i]));
        }
    }
}

/// Discounting a candidate refines the grid and makes it lighter.
pub proof fn lemma_rejection_is_lighter(cells: Seq<CellView>, index: int, value: u8)
    requires
        cells_wf(cells),
        0 <= index < cells.len(),
        cells[index].value is None,
        cells[index].candidates.contains(value),
    ensures
        cells_wf(with_rejection(cells, index, value)),
        refines(cells, with_rejection(cells, index, value)),
        weight(with_rejection(cells, index, value)) < weight(cells),
{
    let after = with_rejection(cells, index, value);
    assert(cells[index].wf());
    lemma_cell_operations_keep_wf(cells[index], value);
    lemma_without(cells[index].candidates, value);
    assert forall|i: int| 0 <= i < cells.len() implies (#[trigger] after[i]).wf() && cell_refines(
        cells[i],
        after[i],
    ) && cell_weight(after[i]) <= cell_weight(cells[i]) by {
        assert(cells[i].wf());
    }
    lemma_weight_by_cell(cells, after);
    assert(cell_weight(after[index]) < cell_weight(cells[index]));
}

/// Where a hypothesis has no solution, discounting its value refines the
/// grid, makes it lighter and keeps every solution.
pub proof fn lemma_rejection(cells: Seq<CellView>, index: int, value: u8)
    requires
        cells_wf(cells),
        0 <= index < cells.len(),
        cells[index].value is None,
        cells[index].candidates.contains(value),
        !has_solution(with_hypothesis(cells, index, value)),
    ensures
        cells_wf(with_rejection(cells, index, value)),
        refines(cells, with_rejection(cells, index, value)),
        weight(with_rejection(cells, index, value)) < weight(cells),
        keeps_solutions(cells, with_rejection(cells, index, value)),
{
    let after = with_rejection(cells, index, value);
    lemma_rejection_is_lighter(cells, index, value);
    lemma_hypothesis(cells, index, value);
    assert forall|s: Seq<u8>| #[trigger] solves(s, cells) implies solves(s, after) by {
        if s[index] == value {
            assert(solves(s, with_hypothesis(cells, index, value)));
        }
        assert forall|i: int| 0 <= i < s.len() implies #[trigger] cell_admits(after[i], s[i]) by {
            assert(cell_admits(cells[i], s[i]));
        }
    }
}

/// A valid grid in which nothing is left to try is complete or has no
/// solution.
pub proof fn lemma_no_trial(cells: Seq<CellView>)
    requires
        no_trial(cells),
        puzzle_is_valid(cells),
    ensures
        puzzle_is_complete(cells) || !has_solution(cells),
{
    if forall|j: int| 0 <= j < cells.len() ==> (#[trigger] cells[j]).value is Some {
        if cells.len() == 81 {
            assert forall|group: Seq<usize>| #[trigger] is_unit(group) implies group_is_complete(
                cells,
                group,
            ) by {
                crate::sudoku::domain::units::lemma_unit_shape(group);
            }
        } else {
            assert forall|s: Seq<u8>| !solves(s, cells) by {}
        }
    } else {
        let i = choose|i: int|
            is_first_unsettled(cells, i) && (#[trigger] cells[i]).candidates.len() == 0;
        assert forall|s: Seq<u8>| !solves(s, cells) by {
            if solves(s, cells) {
                assert(cell_admits(cells[i], s[i]));
            }
        }
    }
}

/// Tests one hypothesis.  It is made in a copy of the puzzle, and the copy is
/// searched: propagation, then further hypotheses, each in a copy of the
/// copy, until the copy is complete or nothing is left to try in it.
///
/// Where the copy became complete the hypothesis is accepted: the cell is
/// settled in the puzzle, which is then propagated, and the puzzle has a
/// solution.  Otherwise the hypothesis is rejected: its value is discounted in
/// the puzzle, which loses no solution by it.  Either way the puzzle is
/// changed once and is lighter afterwards.
pub fn try_trial(sudoku: &mut Puzzle, trial: &Trial) -> (accepted: bool)
    requires
        old(sudoku).wf(),
        trial.fits(old(sudoku)@),
    ensures
        final(sudoku).wf(),
        refines(old(sudoku)@, final(sudoku)@),
        weight(final(sudoku)@) < weight(old(sudoku)@),
        accepted == has_solution(
            with_hypothesis(old(sudoku)@, trial.cell as int, trial.trial_value),
        ),
        accepted ==> final(sudoku)@ == propagate(
            with_hypothesis(old(sudoku)@, trial.cell as int, trial.trial_value),
        ) && has_solution(final(sudoku)@),
        !accepted ==> final(sudoku)@ == with_rejection(
            old(sudoku)@,
            trial.cell as int,
            trial.trial_value,
        ) && keeps_solutions(old(sudoku)@, final(sudoku)@),
    decreases weight(old(sudoku)@),
{
    let mut clone = sudoku.clone();
    trial.apply_hypothesis(&mut clone);
    let ghost hypothesis = clone@;
    let mut solvable = false;
    proof {
        lemma_hypothesis(sudoku@, trial.cell as int, trial.trial_value);
        lemma_refines_order(hypothesis, hypothesis, hypothesis);
    }
    loop
        invariant_except_break
            clone.wf(),
            refines(hypothesis, clone@),
            keeps_solutions(hypothesis, clone@),
            weight(clone@) < weight(old(sudoku)@),
            !solvable,
        invariant
            sudoku@ == old(sudoku)@,
            sudoku.wf(),
            hypothesis == with_hypothesis(old(sudoku)@, trial.cell as int, trial.trial_value),
            weight(hypothesis) < weight(old(sudoku)@),
        ensures
            solvable ==> has_solution(hypothesis),
            !solvable ==> !has_solution(hypothesis),
        decreases weight(clone@),
    {
        let ghost before = clone@;
        proof {
            lemma_propagate_sound(before);
            lemma_refines_order(hypothesis, before, propagate(before));
        }
        eliminate_candidates_from_closed_groups(&mut clone);
        let ghost settled = clone@;
        if clone.is_complete() {
            proof {
                lemma_complete_is_solution(hypothesis, settled);
            }
            solvable = true;
            break ;
        }
        if !clone.is_valid() {
            proof {
                assert forall|s: Seq<u8>| !solves(s, hypothesis) by {
                    if solves(s, hypothesis) {
                        assert(solves(s, before));
                        assert(solves(s, settled));
                        lemma_solvable_is_valid(s, settled);
                    }
                }
            }
            break ;
        }
        match try_get_next_trial(&clone) {
            None => {
                proof {
                    lemma_no_trial(settled);
                    assert forall|s: Seq<u8>| !solves(s, hypothesis) by {
                        if solves(s, hypothesis) {
                            assert(solves(s, before));
                            assert(solves(s, settled));
                        }
                    }
                }
                break ;
            },
            Some(next) => {
                if try_trial(&mut clone, &next) {
                    proof {
                        let s = choose|s: Seq<u8>| solves(s, clone@);
                        lemma_refines_order(hypothesis, settled, clone@);
                        lemma_consistent_before(s, hypothesis, clone@);
                        assert(solves(s, hypothesis));
                    }
                    solvable = true;
                    break ;
                }
                proof {
                    lemma_refines_order(hypothesis, settled, clone@);
                    assert forall|s: Seq<u8>| #[trigger] solves(s, hypothesis) implies solves(
                        s,
                        clone@,
                    ) by {
                        assert(solves(s, before));
                        assert(solves(s, settled));
                    }
                }
            },
        }
    }
    if solvable {
        proof {
            lemma_propagate_sound(hypothesis);
            lemma_refines_order(old(sudoku)@, hypothesis, propagate(hypothesis));
            let s = choose|s: Seq<u8>| solves(s, hypothesis);
            assert(solves(s, propagate(hypothesis)));
        }
        trial.accept(sudoku);
        eliminate_candidates_from_closed_groups(sudoku);
        true
    } else {
        proof {
            lemma_rejection(sudoku@, trial.cell as int, trial.trial_value);
        }
        trial.reject(sudoku);
        false
    }
}

/// Tries the next hypothesis, see [`try_trial`].  Where nothing is left to
/// try the puzzle stays as it is, and the answer is whether it is complete.
pub fn try_recursively(sudoku: &mut Puzzle) -> (accepted: bool)
    requires
        old(sudoku).wf(),
    ensures
        final(sudoku).wf(),
        refines(old(sudoku)@, final(sudoku)@),
        accepted ==> has_solution(final(sudoku)@),
        !accepted ==> keeps_solutions(old(sudoku)@, final(sudoku)@),
        no_trial(old(sudoku)@) ==> final(sudoku)@ == old(sudoku)@ && accepted == puzzle_is_complete(
            old(sudoku)@,
        ),
        !no_trial(old(sudoku)@) ==> weight(final(sudoku)@) < weight(old(sudoku)@),
        forall|trial: Trial| #[trigger]
            is_next_trial(old(sudoku)@, trial) ==> {
                let hypothesis = with_hypothesis(
                    old(sudoku)@,
                    trial.cell as int,
                    trial.trial_value,
                );
                &&& accepted == has_solution(hypothesis)
                &&& accepted ==> final(sudoku)@ == propagate(hypothesis)
                &&& !accepted ==> final(sudoku)@ == with_rejection(
                    old(sudoku)@,
                    trial.cell as int,
                    trial.trial_value,
                )
            },
{
    match try_get_next_trial(sudoku) {
        None => {
            proof {
                lemma_refines_order(sudoku@, sudoku@, sudoku@);
                if puzzle_is_complete(sudoku@) {
                    lemma_complete_is_solution(sudoku@, sudoku@);
                }
            }
            sudoku.is_complete()
        },
        Some(trial) => {
            proof {
                lemma_trial_excludes_no_trial(sudoku@, trial);
                assert forall|other: Trial| #[trigger] is_next_trial(sudoku@, other) implies other
                    == trial by {
                    lemma_next_trial_is_unique(sudoku@, trial, other);
                }
            }
            try_trial(sudoku, &trial)
        },
    }
}

/// There is one next trial at most.
pub proof fn lemma_next_trial_is_unique(cells: Seq<CellView>, a: Trial, b: Trial)
    requires
        is_next_trial(cells, a),
        is_next_trial(cells, b),
    ensures
        a == b,
{
    if a.cell < b.cell {
        assert(cells[a.cell as int].value is Some);
    } else if b.cell < a.cell {
        assert(cells[b.cell as int].value is Some);
    }
}

/// Where there is a next trial, something is left to try.
pub proof fn lemma_trial_excludes_no_trial(cells: Seq<CellView>, trial: Trial)
    requires
        is_next_trial(cells, trial),
    ensures
        !no_trial(cells),
        trial.fits(cells),
{
    let index = trial.cell as int;
    assert(cells[index].value is None);
    if exists|i: int| is_first_unsettled(cells, i) && (#[trigger] cells[i]).candidates.len() == 0 {
        let i = choose|i: int|
            is_first_unsettled(cells, i) && (#[trigger] cells[i]).candidates.len() == 0;
        if i < index {
            assert(cells[i].value is Some);
        } else if index < i {
            assert(cells[index].value is Some);
        }
        assert(cells[index].candidates.len() > 0) by {
            let k = choose|k: int|
                0 <= k < cells[index].candidates.len() && cells[index].candidates[k]
                    == trial.trial_value;
        }
    }
}

/// Before an unsettled cell there is a first unsettled cell.
pub proof fn lemma_first_unsettled(cells: Seq<CellView>, index: int) -> (first: int)
    requires
        0 <= index < cells.len(),
        cells[index].value is None,
    ensures
        is_first_unsettled(cells, first),
        first <= index,
    decreases index,
{
    if exists|j: int| 0 <= j < index && (#[trigger] cells[j]).value is None {
        let j = choose|j: int| 0 <= j < index && (#[trigger] cells[j]).value is None;
        lemma_first_unsettled(cells, j)
    } else {
        index
    }
}

/// Among some values there is a least.
pub proof fn lemma_least_value(values: Seq<u8>) -> (least: u8)
    requires
        values.len() > 0,
    ensures
        values.contains(least),
        forall|x: u8| #[trigger] values.contains(x) ==> least <= x,
    decreases values.len(),
{
    let last = values.last();
    assert(values[values.len() - 1] == last);
    if values.len() == 1 {
        assert forall|x: u8| #[trigger] values.contains(x) implies last <= x by {
            let k = choose|k: int| 0 <= k < values.len() && values[k] == x;
        }
        last
    } else {
        let front = values.drop_last();
        let least = lemma_least_value(front);
        let k = choose|k: int| 0 <= k < front.len() && front[k] == least;
        assert(values[k] == least);
        let result = if last < least {
            last
        } else {
            least
        };
        assert forall|x: u8| #[trigger] values.contains(x) implies result <= x by {
            let j = choose|j: int| 0 <= j < values.len() && values[j] == x;
            if j < front.len() {
                assert(front[j] == x);
                assert(front.contains(x));
            }
        }
        result
    }
}

/// Where something is left to try, there is a next trial.
pub proof fn lemma_next_trial_exists(cells: Seq<CellView>) -> (trial: Trial)
    requires
        !no_trial(cells),
        cells.len() <= usize::MAX,
    ensures
        is_next_trial(cells, trial),
{
    let j = choose|j: int| 0 <= j < cells.len() && !((#[trigger] cells[j]).value is Some);
    let first = lemma_first_unsettled(cells, j);
    assert(cells[first].candidates.len() != 0);
    let least = lemma_least_value(cells[first].candidates);
    Trial { cell: first as usize, trial_value: least }
}

/// The next trial of a grid in which something is left to try.
pub open spec fn next_trial(cells: Seq<CellView>) -> Trial {
    choose|trial: Trial| is_next_trial(cells, trial)
}

/// What is left of a puzzle without solution when every hypothesis has
/// failed: the puzzle is propagated and, while it breaks no rule and
/// something is left to try, the value of the next trial is discounted.
pub open spec fn exhausted(cells: Seq<CellView>) -> Seq<CellView>
    decreases weight(cells),
    when cells_wf(cells)
{
    let settled = propagate(cells);
    if !puzzle_is_valid(settled) || no_trial(settled) {
        settled
    } else {
        let trial = next_trial(settled);
        proof {
            lemma_propagate_sound(cells);
            let found = lemma_next_trial_exists(settled);
            lemma_rejection_is_lighter(settled, trial.cell as int, trial.trial_value);
        }
        exhausted(with_rejection(settled, trial.cell as int, trial.trial_value))
    }
}

/// The grid in which every cell is settled on the value that `s` gives it.
pub open spec fn settled_grid(s: Seq<u8>) -> Seq<CellView> {
    s.map_values(|value: u8| CellView::settled(value))
}

/// A complete grid holds nothing but its values.
pub proof fn lemma_complete_is_settled_grid(cells: Seq<CellView>)
    requires
        cells_wf(cells),
        puzzle_is_complete(cells),
    ensures
        cells == settled_grid(grid_values(cells)),
{
    lemma_complete_is_solution(cells, cells);
    assert forall|i: int| 0 <= i < cells.len() implies cells[i] == settled_grid(
        grid_values(cells),
    )[i] by {
        assert(cell_admits(cells[i], grid_values(cells)[i]));
        assert(cells[i].wf());
        assert(cells[i].candidates =~= Seq::empty());
        assert(cells[i].discounted =~= Seq::empty());
    }
    assert(cells =~= settled_grid(grid_values(cells)));
}

/// `a` comes before `b` where the two grids are read row by row: they differ,
/// and at the first cell in which they differ `a` holds the lesser value.
pub open spec fn comes_before(a: Seq<u8>, b: Seq<u8>) -> bool {
    exists|k: int|
        0 <= k < a.len() && k < b.len() && #[trigger] a[k] < b[k] && forall|j: int|
            0 <= j < k ==> a[j] == b[j]
}

/// `s` is the least solution of the puzzle: every other solution comes after
/// it.
pub open spec fn is_least_solution(s: Seq<u8>, cells: Seq<CellView>) -> bool {
    &&& solves(s, cells)
    &&& forall|t: Seq<u8>| #[trigger] solves(t, cells) ==> t == s || comes_before(s, t)
}

/// `s` is the only solution of the puzzle.
pub open spec fn is_only_solution(s: Seq<u8>, cells: Seq<CellView>) -> bool {
    &&& solves(s, cells)
    &&& forall|t: Seq<u8>| #[trigger] solves(t, cells) ==> t == s
}

/// Every solution of `start` that `now` has lost comes after every solution
/// that `now` still has.
pub open spec fn lost_only_later(start: Seq<CellView>, now: Seq<CellView>) -> bool {
    forall|s: Seq<u8>, t: Seq<u8>|
        #[trigger] solves(s, start) && !solves(s, now) && #[trigger] solves(t, now)
            ==> comes_before(t, s)
}

/// A refinement that keeps every solution has lost no more than was lost
/// before.
pub proof fn lemma_nothing_lost(start: Seq<CellView>, before: Seq<CellView>, after: Seq<CellView>)
    requires
        lost_only_later(start, before),
        refines(before, after),
        keeps_solutions(before, after),
    ensures
        lost_only_later(start, after),
{
    assert forall|s: Seq<u8>, t: Seq<u8>|
        #[trigger] solves(s, start) && !solves(s, after) && #[trigger] solves(t, after)
        implies comes_before(t, s) by {
        lemma_consistent_before(t, before, after);
        assert(solves(t, before));
        if solves(s, before) {
            assert(solves(s, after));
        }
    }
}

/// Accepting the next trial loses only solutions that come after those that
/// are left.
pub proof fn lemma_accepted_trial_loses_later(
    start: Seq<CellView>,
    before: Seq<CellView>,
    after: Seq<CellView>,
    trial: Trial,
)
    requires
        cells_wf(before),
        lost_only_later(start, before),
        is_next_trial(before, trial),
        refines(with_hypothesis(before, trial.cell as int, trial.trial_value), after),
        keeps_solutions(with_hypothesis(before, trial.cell as int, trial.trial_value), after),
    ensures
        lost_only_later(start, after),
{
    let index = trial.cell as int;
    let hypothesis = with_hypothesis(before, index, trial.trial_value);
    lemma_hypothesis(before, index, trial.trial_value);
    assert(before[index].wf());
    assert(hypothesis[index].value == Some(trial.trial_value));
    assert forall|s: Seq<u8>, t: Seq<u8>|
        #[trigger] solves(s, start) && !solves(s, after) && #[trigger] solves(t, after)
        implies comes_before(t, s) by {
        lemma_consistent_before(t, hypothesis, after);
        lemma_consistent_before(t, before, hypothesis);
        assert(solves(t, before));
        assert(cell_admits(hypothesis[index], t[index]));
        if solves(s, before) {
            assert(cell_admits(before[index], s[index]));
            assert forall|j: int| 0 <= j < index implies t[j] == s[j] by {
                assert(before[j].value is Some);
                assert(cell_admits(before[j], s[j]));
                assert(cell_admits(before[j], t[j]));
            }
            if s[index] == trial.trial_value {
                assert(solves(s, hypothesis));
                assert(solves(s, after));
            }
            assert(t[index] < s[index]);
        }
    }
}

/// What the search keeps true of the puzzle `now` that it made of `start`:
/// it is a refinement that has a solution if `start` had one, it has lost
/// only solutions that come after those it still has, and where `start` had
/// no solution it ends as `start` would.
#[verifier::opaque]
pub open spec fn on_course(start: Seq<CellView>, now: Seq<CellView>) -> bool {
    &&& cells_wf(start)
    &&& cells_wf(now)
    &&& refines(start, now)
    &&& has_solution(start) ==> has_solution(now)
    &&& lost_only_later(start, now)
    &&& !has_solution(start) ==> exhausted(now) == exhausted(start)
}

/// The search starts on course.
pub proof fn lemma_search_starts(start: Seq<CellView>)
    requires
        cells_wf(start),
    ensures
        on_course(start, start),
{
    reveal(on_course);
    lemma_refines_order(start, start, start);
}

/// Where the search stops, the puzzle is as the search promises.
pub proof fn lemma_search_stops(start: Seq<CellView>, now: Seq<CellView>)
    requires
        on_course(start, now),
        puzzle_is_complete(propagate(now)) || !puzzle_is_valid(propagate(now)) || no_trial(
            propagate(now),
        ),
    ensures
        refines(start, propagate(now)),
        puzzle_is_complete(propagate(now)) <==> has_solution(start),
        has_solution(start) ==> is_least_solution(grid_values(propagate(now)), start) && propagate(
            now,
        ) == settled_grid(grid_values(propagate(now))),
        !has_solution(start) ==> propagate(now) == exhausted(start),
        forall|s: Seq<u8>| #[trigger]
            is_only_solution(s, start) ==> propagate(now) == settled_grid(s),
{
    reveal(on_course);
    let settled = propagate(now);
    lemma_propagate_sound(now);
    lemma_refines_order(start, now, settled);
    lemma_nothing_lost(start, now, settled);
    if has_solution(now) {
        let s = choose|s: Seq<u8>| solves(s, now);
        assert(solves(s, settled));
        lemma_solvable_is_valid(s, settled);
    }
    if puzzle_is_valid(settled) && no_trial(settled) {
        lemma_no_trial(settled);
    }
    if puzzle_is_complete(settled) {
        let found = grid_values(settled);
        lemma_complete_is_solution(start, settled);
        lemma_complete_is_settled_grid(settled);
        assert forall|t: Seq<u8>| #[trigger] solves(t, start) implies t == found || comes_before(
            found,
            t,
        ) by {
            if solves(t, settled) {
                lemma_complete_has_one_solution(t, settled);
            }
        }
        assert forall|s: Seq<u8>| #[trigger] is_only_solution(s, start) implies found == s by {
            assert(solves(found, start));
        }
    } else {
        assert(!puzzle_is_valid(settled) || no_trial(settled));
    }
}

/// After a trial the search is on course still.
pub proof fn lemma_search_goes_on(
    start: Seq<CellView>,
    now: Seq<CellView>,
    trial: Trial,
    next: Seq<CellView>,
)
    requires
        on_course(start, now),
        puzzle_is_valid(propagate(now)),
        is_next_trial(propagate(now), trial),
        cells_wf(next),
        ({
            let settled = propagate(now);
            let hypothesis = with_hypothesis(settled, trial.cell as int, trial.trial_value);
            if has_solution(hypothesis) {
                next == propagate(hypothesis)
            } else {
                next == with_rejection(settled, trial.cell as int, trial.trial_value)
            }
        }),
    ensures
        on_course(start, next),
{
    reveal(on_course);
    let settled = propagate(now);
    let index = trial.cell as int;
    let hypothesis = with_hypothesis(settled, index, trial.trial_value);
    lemma_propagate_sound(now);
    lemma_refines_order(start, now, settled);
    lemma_nothing_lost(start, now, settled);
    lemma_trial_excludes_no_trial(settled, trial);
    lemma_hypothesis(settled, index, trial.trial_value);
    if has_solution(now) {
        let s = choose|s: Seq<u8>| solves(s, now);
        assert(solves(s, settled));
    }
    if has_solution(hypothesis) {
        let s = choose|s: Seq<u8>| solves(s, hypothesis);
        lemma_propagate_sound(hypothesis);
        assert(solves(s, next));
        lemma_refines_order(settled, hypothesis, next);
        lemma_refines_order(start, settled, next);
        lemma_accepted_trial_loses_later(start, settled, next, trial);
        lemma_consistent_before(s, settled, hypothesis);
        lemma_consistent_before(s, start, settled);
        assert(solves(s, start));
    } else {
        lemma_rejection(settled, index, trial.trial_value);
        lemma_refines_order(start, settled, next);
        lemma_nothing_lost(start, settled, next);
        if has_solution(settled) {
            let s = choose|s: Seq<u8>| solves(s, settled);
            assert(solves(s, next));
        }
        if !has_solution(start) {
            lemma_next_trial_is_unique(settled, trial, next_trial(settled));
            assert(exhausted(now) == exhausted(next));
        }
    }
}

/// Solves the puzzle by propagation and, where that stalls, by trying
/// hypotheses: each one is accepted, which settles a cell, or rejected, which
/// discounts a candidate, until the puzzle is complete or nothing is left to
/// try.
///
/// The puzzle ends complete exactly if it had a solution.  Every cell is then
/// settled on the value that the least solution of the puzzle as it was gives
/// it, the solutions read row by row; so where the puzzle had one solution
/// only, it ends as that solution.  A puzzle without solution ends as
/// [`exhausted`] says.  Settled cells are never changed.
pub fn solve_by_trial_and_error(sudoku: &mut Puzzle)
    requires
        old(sudoku).wf(),
    ensures
        final(sudoku).wf(),
        refines(old(sudoku)@, final(sudoku)@),
        puzzle_is_complete(final(sudoku)@) <==> has_solution(old(sudoku)@),
        has_solution(old(sudoku)@) ==> is_least_solution(
            grid_values(final(sudoku)@),
            old(sudoku)@,
        ) && final(sudoku)@ == settled_grid(grid_values(final(sudoku)@)),
        !has_solution(old(sudoku)@) ==> final(sudoku)@ == exhausted(old(sudoku)@),
        forall|s: Seq<u8>| #[trigger]
            is_only_solution(s, old(sudoku)@) ==> final(sudoku)@ == settled_grid(s),
{
    proof {
        lemma_search_starts(sudoku@);
    }
    loop
        invariant_except_break
            on_course(old(sudoku)@, sudoku@),
        invariant
            sudoku.wf(),
        ensures
            refines(old(sudoku)@, sudoku@),
            puzzle_is_complete(sudoku@) <==> has_solution(old(sudoku)@),
            has_solution(old(sudoku)@) ==> is_least_solution(grid_values(sudoku@), old(sudoku)@)
                && sudoku@ == settled_grid(grid_values(sudoku@)),
            !has_solution(old(sudoku)@) ==> sudoku@ == exhausted(old(sudoku)@),
            forall|s: Seq<u8>| #[trigger]
                is_only_solution(s, old(sudoku)@) ==> sudoku@ == settled_grid(s),
        decreases weight(sudoku@),
    {
        let ghost before = sudoku@;
        eliminate_candidates_from_closed_groups(sudoku);
        proof {
            lemma_refines_weight(before, sudoku@);
        }
        if sudoku.is_complete() || !sudoku.is_valid() {
            proof {
                lemma_search_stops(old(sudoku)@, before);
            }
            break ;
        }
        match try_get_next_trial(sudoku) {
            None => {
                proof {
                    lemma_search_stops(old(sudoku)@, before);
                }
                break ;
            },
            Some(trial) => {
                proof {
                    lemma_trial_excludes_no_trial(sudoku@, trial);
                }
                try_trial(sudoku, &trial);
                proof {
                    lemma_search_goes_on(old(sudoku)@, before, trial, sudoku@);
                }
            },
        }
    }
}

} // verus!
