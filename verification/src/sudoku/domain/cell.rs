//! A cell: its settled value, or the values that are still possible for it.

use std::ops::RangeInclusive;
use super::consts::PUZZLE_MAXIMUM_VALUE;
use vstd::prelude::*;
use vstd::std_specs::range::RangeInclusiveView;

verus! {

/// What a [`Cell`] holds: the settled value, if there is one, the values that
/// are still possible, and the values that were ruled out.
pub struct CellView {
    pub value: Option<u8>,
    pub candidates: Seq<u8>,
    pub discounted: Seq<u8>,
}

/// The values a settled cell may take.
pub open spec fn is_domain_value(value: u8) -> bool {
    1 <= value <= PUZZLE_MAXIMUM_VALUE
}

/// Every value of the domain, ascending.
pub open spec fn full_domain() -> Seq<u8> {
    Seq::new(PUZZLE_MAXIMUM_VALUE as nat, |i: int| (i + 1) as u8)
}

/// `values` with every occurrence of `value` taken out, the rest in place.
pub open spec fn without(values: Seq<u8>, value: u8) -> Seq<u8> {
    values.filter(|x: u8| x != value)
}

/// `values` with `value` added at the end unless it already occurs.
pub open spec fn with_value(values: Seq<u8>, value: u8) -> Seq<u8> {
    if values.contains(value) {
        values
    } else {
        values.push(value)
    }
}

/// Whether the range, as far as it has not been walked yet, holds `value`.
pub open spec fn in_range(range: RangeInclusiveView<u8>, value: u8) -> bool {
    range.start <= value && if range.exhausted {
        value < range.end
    } else {
        value <= range.end
    }
}

/// The domain values below `bound` that the range holds, ascending.
pub open spec fn range_values(range: RangeInclusiveView<u8>, bound: u8) -> Seq<u8>
    decreases bound,
{
    if bound <= 1 {
        Seq::empty()
    } else {
        let below = range_values(range, (bound - 1) as u8);
        if in_range(range, (bound - 1) as u8) {
            below.push((bound - 1) as u8)
        } else {
            below
        }
    }
}

impl CellView {
    /// An unsettled cell for which every value of the domain is possible.
    pub open spec fn fresh() -> CellView {
        CellView { value: None, candidates: full_domain(), discounted: Seq::empty() }
    }

    /// A cell settled on `value`.
    pub open spec fn settled(value: u8) -> CellView {
        CellView { value: Some(value), candidates: Seq::empty(), discounted: Seq::empty() }
    }

    /// Settles the cell on `value`; a value outside the domain changes nothing.
    pub open spec fn set_value(self, value: u8) -> CellView {
        if is_domain_value(value) {
            CellView::settled(value)
        } else {
            self
        }
    }

    /// Moves `value` from the candidates to the discounted values.  A settled
    /// cell has nothing left to discount, and a value outside the domain is
    /// ignored.
    pub open spec fn discount_value(self, value: u8) -> CellView {
        if is_domain_value(value) && self.value is None {
            CellView {
                value: None,
                candidates: without(self.candidates, value),
                discounted: with_value(self.discounted, value),
            }
        } else {
            self
        }
    }

    /// Discounts the values one after another, first to last.
    pub open spec fn discount_values(self, values: Seq<u8>) -> CellView
        decreases values.len(),
    {
        if values.len() == 0 {
            self
        } else {
            self.discount_values(values.drop_last()).discount_value(values.last())
        }
    }

    /// Moves `value` from the discounted values back to the candidates.
    pub open spec fn add_candidate(self, value: u8) -> CellView {
        if is_domain_value(value) && self.value is None {
            CellView {
                value: None,
                candidates: with_value(self.candidates, value),
                discounted: without(self.discounted, value),
            }
        } else {
            self
        }
    }

    /// Settles the cell on its only candidate, if it has exactly one.
    pub open spec fn try_complete(self) -> CellView {
        if self.candidates.len() == 1 {
            self.set_value(self.candidates[0])
        } else {
            self
        }
    }

    /// The invariant of a cell.  Both lists hold domain values, each at most
    /// once.  A settled cell holds a domain value and both lists are empty.  In
    /// an unsettled cell each domain value is in exactly one of the two lists.
    pub open spec fn wf(self) -> bool {
        &&& self.candidates.no_duplicates()
        &&& self.discounted.no_duplicates()
        &&& forall|v: u8| #[trigger] self.candidates.contains(v) ==> is_domain_value(v)
        &&& forall|v: u8| #[trigger] self.discounted.contains(v) ==> is_domain_value(v)
        &&& match self.value {
            Some(v) => is_domain_value(v) && self.candidates.len() == 0 && self.discounted.len()
                == 0,
            None => forall|v: u8|
                is_domain_value(v) ==> (#[trigger] self.candidates.contains(v)
                    != self.discounted.contains(v)),
        }
    }
}

/// What is in `without(values, value)`, and how long it is.
pub proof fn lemma_without(values: Seq<u8>, value: u8)
    ensures
        forall|x: u8| #[trigger]
            without(values, value).contains(x) <==> values.contains(x) && x != value,
        values.no_duplicates() ==> without(values, value).no_duplicates(),
        without(values, value).len() <= values.len(),
        values.contains(value) ==> without(values, value).len() < values.len(),
        !values.contains(value) ==> without(values, value) == values,
    decreases values.len(),
{
    reveal(Seq::filter);
    let keep = |x: u8| x != value;
    let out = without(values, value);
    if values.len() > 0 {
        let front = values.drop_last();
        let last = values.last();
        lemma_without(front, value);
        let sub = without(front, value);
        assert(values =~= front.push(last));
        assert forall|x: u8| #[trigger] out.contains(x) <==> values.contains(x) && x != value by {
            if out.contains(x) {
                let i = choose|i: int| 0 <= i < out.len() && out[i] == x;
                if last != value && i == out.len() - 1 {
                    assert(values[values.len() - 1] == x);
                } else {
                    assert(sub[i] == x);
                    assert(sub.contains(x));
                    let j = choose|j: int| 0 <= j < front.len() && front[j] == x;
                    assert(values[j] == x);
                }
            }
            if values.contains(x) && x != value {
                let j = choose|j: int| 0 <= j < values.len() && values[j] == x;
                if j == values.len() - 1 {
                    assert(out[out.len() - 1] == x);
                } else {
                    assert(front[j] == x);
                    assert(front.contains(x));
                    assert(sub.contains(x));
                    let i = choose|i: int| 0 <= i < sub.len() && sub[i] == x;
                    assert(out[i] == x);
                }
            }
        }
        if values.no_duplicates() {
            assert(front.no_duplicates());
            if last != value {
                assert(!front.contains(last)) by {
                    if front.contains(last) {
                        let j = choose|j: int| 0 <= j < front.len() && front[j] == last;
                        assert(values[j] == values[values.len() - 1]);
                    }
                }
                assert(!sub.contains(last));
                assert(out.no_duplicates());
            }
        }
        if values.contains(value) {
            if last != value {
                let j = choose|j: int| 0 <= j < values.len() && values[j] == value;
                assert(front[j] == value);
                assert(front.contains(value));
            }
        } else {
            assert(!front.contains(value)) by {
                if front.contains(value) {
                    let j = choose|j: int| 0 <= j < front.len() && front[j] == value;
                    assert(values[j] == value);
                }
            }
            assert(last != value) by {
                assert(values[values.len() - 1] == last);
            }
            assert(out =~= values);
        }
    }
}

/// Taking `value` out of a list that ends in `last`.
pub proof fn lemma_without_push(values: Seq<u8>, last: u8, value: u8)
    ensures
        without(values.push(last), value) == if last == value {
            without(values, value)
        } else {
            without(values, value).push(last)
        },
{
    reveal(Seq::filter);
    assert(values.push(last).drop_last() =~= values);
}

/// What is in `with_value(values, value)`.
pub proof fn lemma_with_value(values: Seq<u8>, value: u8)
    ensures
        forall|x: u8| #[trigger]
            with_value(values, value).contains(x) <==> values.contains(x) || x == value,
        values.no_duplicates() ==> with_value(values, value).no_duplicates(),
{
    let out = with_value(values, value);
    assert forall|x: u8| #[trigger] out.contains(x) <==> values.contains(x) || x == value by {
        if !values.contains(value) {
            if out.contains(x) {
                let i = choose|i: int| 0 <= i < out.len() && out[i] == x;
                if i < values.len() {
                    assert(values[i] == x);
                }
            }
            if values.contains(x) {
                let i = choose|i: int| 0 <= i < values.len() && values[i] == x;
                assert(out[i] == x);
            }
            if x == value {
                assert(out[out.len() - 1] == x);
            }
        }
    }
}

/// The domain holds the values 1 to 9, each once.
pub proof fn lemma_full_domain()
    ensures
        full_domain().no_duplicates(),
        full_domain().len() == PUZZLE_MAXIMUM_VALUE,
        forall|v: u8| #[trigger] full_domain().contains(v) <==> is_domain_value(v),
{
    assert forall|v: u8| #[trigger] full_domain().contains(v) <==> is_domain_value(v) by {
        if is_domain_value(v) {
            assert(full_domain()[v - 1] == v);
        }
    }
}

/// Settling a cell, discounting a value and adding a candidate keep the
/// invariant.
pub proof fn lemma_cell_operations_keep_wf(cell: CellView, value: u8)
    requires
        cell.wf(),
    ensures
        cell.set_value(value).wf(),
        cell.discount_value(value).wf(),
        cell.add_candidate(value).wf(),
{
    lemma_without(cell.candidates, value);
    lemma_without(cell.discounted, value);
    lemma_with_value(cell.candidates, value);
    lemma_with_value(cell.discounted, value);
}

/// Settling a cell on its only candidate keeps the invariant.
pub proof fn lemma_try_complete_keeps_wf(cell: CellView)
    requires
        cell.wf(),
    ensures
        cell.try_complete().wf(),
{
    if cell.candidates.len() == 1 {
        assert(cell.candidates.contains(cell.candidates[0]));
    }
}

/// Discounting several values keeps the invariant.
pub proof fn lemma_discount_values_keeps_wf(cell: CellView, values: Seq<u8>)
    requires
        cell.wf(),
    ensures
        cell.discount_values(values).wf(),
    decreases values.len(),
{
    if values.len() > 0 {
        lemma_discount_values_keeps_wf(cell, values.drop_last());
        lemma_cell_operations_keep_wf(cell.discount_values(values.drop_last()), values.last());
    }
}

/// One cell of the grid.
#[derive(Debug)]
pub struct Cell {
    pub value: Option<u8>,
    pub discounted_values: Vec<u8>,
    pub potentially_valid_values: Vec<u8>,
}

impl View for Cell {
    type V = CellView;

    open spec fn view(&self) -> CellView {
        CellView {
            value: self.value,
            candidates: self.potentially_valid_values@,
            discounted: self.discounted_values@,
        }
    }
}

impl Cell {
    /// The invariant of a cell, see [`CellView::wf`].
    pub open spec fn wf(&self) -> bool {
        self@.wf()
    }

    /// An unsettled cell for which every value of the domain is possible.
    pub fn new() -> (cell: Self)
        ensures
            cell@ == CellView::fresh(),
            cell.wf(),
    {
        let mut candidates: Vec<u8> = Vec::new();
        let mut value: u8 = 1;
        while value <= PUZZLE_MAXIMUM_VALUE
            invariant
                1 <= value <= PUZZLE_MAXIMUM_VALUE + 1,
                candidates@ == Seq::new((value - 1) as nat, |i: int| (i + 1) as u8),
            decreases PUZZLE_MAXIMUM_VALUE + 1 - value,
        {
            candidates.push(value);
            value += 1;
            assert(candidates@ =~= Seq::new((value - 1) as nat, |i: int| (i + 1) as u8));
        }
        let cell = Cell {
            value: None,
            discounted_values: Vec::new(),
            potentially_valid_values: candidates,
        };
        proof {
            lemma_full_domain();
            assert(cell@.discounted =~= Seq::empty());
        }
        cell
    }

    /// A cell settled on `value` if that is a value of the domain, else a new
    /// unsettled cell.
    pub fn from_value(value: Option<u8>) -> (cell: Self)
        ensures
            cell@ == match value {
                Some(v) => CellView::fresh().set_value(v),
                None => CellView::fresh(),
            },
            cell.wf(),
    {
        let mut cell = Cell::new();
        if let Some(value) = value {
            cell.set_value(value);
        }
        cell
    }

    /// Settles the cell on `value` and empties both lists.  A value outside
    /// the domain leaves the cell as it is.
    pub fn set_value(&mut self, value: u8)
        ensures
            final(self)@ == old(self)@.set_value(value),
            !is_domain_value(value) ==> *final(self) == *old(self),
            old(self).wf() ==> final(self).wf(),
    {
        if !is_valid_cell_value(value) {
            return ;
        }
        self.value = Some(value);
        self.discounted_values.clear();
        self.potentially_valid_values.clear();
    }

    /// Rules `value` out: it leaves the candidates and joins the discounted
    /// values.  Nothing changes if the cell is settled or the value is outside
    /// the domain.
    pub fn discount_value(&mut self, value: u8)
        ensures
            final(self)@ == old(self)@.discount_value(value),
            !is_domain_value(value) || old(self).value is Some ==> *final(self) == *old(self),
            old(self).wf() ==> final(self).wf(),
    {
        if !is_valid_cell_value(value) || self.value.is_some() {
            return ;
        }
        add_to_collection(&mut self.discounted_values, value);
        remove_from_collection(&mut self.potentially_valid_values, value);
        proof {
            if old(self).wf() {
                lemma_cell_operations_keep_wf(old(self)@, value);
            }
        }
    }

    /// Rules out each of `values`, first to last.
    pub fn discount_values(&mut self, values: &[u8])
        ensures
            final(self)@ == old(self)@.discount_values(values@),
            old(self).wf() ==> final(self).wf(),
    {
        let mut i: usize = 0;
        while i < values.len()
            invariant
                i <= values.len(),
                self@ == old(self)@.discount_values(values@.take(i as int)),
                old(self).wf() ==> self.wf(),
            decreases values.len() - i,
        {
            proof {
                assert(values@.take(i + 1).drop_last() =~= values@.take(i as int));
            }
            self.discount_value(values[i]);
            i += 1;
        }
        assert(values@.take(i as int) =~= values@);
    }

    /// Rules out each domain value that the range holds, in ascending order.
    pub fn discount_range(&mut self, range: RangeInclusive<u8>)
        ensures
            final(self)@ == old(self)@.discount_values(
                range_values(range@, (PUZZLE_MAXIMUM_VALUE + 1) as u8),
            ),
            old(self).wf() ==> final(self).wf(),
    {
        let mut value: u8 = 1;
        while value <= PUZZLE_MAXIMUM_VALUE
            invariant
                1 <= value <= PUZZLE_MAXIMUM_VALUE + 1,
                self@ == old(self)@.discount_values(range_values(range@, value)),
                old(self).wf() ==> self.wf(),
            decreases PUZZLE_MAXIMUM_VALUE + 1 - value,
        {
            let ghost below = range_values(range@, value);
            if range.contains(&value) {
                assert(below.push(value).drop_last() =~= below);
                self.discount_value(value);
            }
            value += 1;
        }
    }

    /// Makes `value` a candidate again: it leaves the discounted values and
    /// joins the candidates.  Nothing changes if the cell is settled or the
    /// value is outside the domain.
    pub fn add_candidate(&mut self, value: u8)
        ensures
            final(self)@ == old(self)@.add_candidate(value),
            !is_domain_value(value) || old(self).value is Some ==> *final(self) == *old(self),
            old(self).wf() ==> final(self).wf(),
    {
        if !is_valid_cell_value(value) || self.value.is_some() {
            return ;
        }
        add_to_collection(&mut self.potentially_valid_values, value);
        remove_from_collection(&mut self.discounted_values, value);
        proof {
            if old(self).wf() {
                lemma_cell_operations_keep_wf(old(self)@, value);
            }
        }
    }

    /// Settles the cell on its only candidate, if it has exactly one.
    pub fn try_complete(&mut self)
        ensures
            final(self)@ == old(self)@.try_complete(),
            old(self).potentially_valid_values@.len() != 1 ==> *final(self) == *old(self),
            old(self).wf() ==> final(self).wf(),
    {
        if self.potentially_valid_values.len() == 1 {
            proof {
                if old(self).wf() {
                    lemma_try_complete_keeps_wf(old(self)@);
                }
            }
            let value = self.potentially_valid_values[0];
            self.set_value(value);
        }
    }

}

impl Clone for Cell {
    /// A copy of the cell that shares nothing with it.
    fn clone(&self) -> (copy: Self)
        ensures
            copy@ == self@,
    {
        Cell {
            value: self.value,
            discounted_values: self.discounted_values.clone(),
            potentially_valid_values: self.potentially_valid_values.clone(),
        }
    }
}

fn remove_from_collection(collection: &mut Vec<u8>, value: u8)
    ensures
        final(collection)@ == without(old(collection)@, value),
{
    let mut kept: Vec<u8> = Vec::new();
    let mut i: usize = 0;
    while i < collection.len()
        invariant
            i <= collection.len(),
            collection@ == old(collection)@,
            kept@ == without(collection@.take(i as int), value),
        decreases collection.len() - i,
    {
        let x = collection[i];
        proof {
            assert(collection@.take(i + 1) =~= collection@.take(i as int).push(x));
            lemma_without_push(collection@.take(i as int), x, value);
        }
        if x != value {
            kept.push(x);
        }
        i += 1;
    }
    assert(collection@.take(i as int) =~= collection@);
    *collection = kept;
}

fn add_to_collection(collection: &mut Vec<u8>, value: u8)
    ensures
        final(collection)@ == with_value(old(collection)@, value),
{
    if !contains_value(collection, value) {
        collection.push(value);
    }
}

fn contains_value(collection: &Vec<u8>, value: u8) -> (found: bool)
    ensures
        found == collection@.contains(value),
{
    let mut i: usize = 0;
    while i < collection.len()
        invariant
            i <= collection.len(),
            forall|j: int| 0 <= j < i ==> collection@[j] != value,
        decreases collection.len() - i,
    {
        if collection[i] == value {
            return true;
        }
        i += 1;
    }
    false
}

fn is_valid_cell_value(value: u8) -> (valid: bool)
    ensures
        valid == is_domain_value(value),
{
    1 <= value && value <= PUZZLE_MAXIMUM_VALUE
}

} // verus!
