//! Comparing two slices as sets.

use vstd::prelude::*;
use vstd::std_specs::cmp::PartialEqSpec;

verus! {

/// Whether `==` finds `item` among `items`.
pub open spec fn holds<T: PartialEq>(items: Seq<T>, item: T) -> bool {
    exists|j: int| 0 <= j < items.len() && #[trigger] items[j].eq_spec(&item)
}

/// Whether `==` finds every item of `inner` among those of `outer`.
pub open spec fn is_subset<T: PartialEq>(inner: Seq<T>, outer: Seq<T>) -> bool {
    forall|i: int| 0 <= i < inner.len() ==> holds(outer, #[trigger] inner[i])
}

/// For bytes, `is_subset` says that every byte of one list occurs in the other.
pub proof fn lemma_is_subset_of_values(inner: Seq<u8>, outer: Seq<u8>)
    ensures
        is_subset(inner, outer) <==> forall|x: u8|
            #[trigger] inner.contains(x) ==> outer.contains(x),
{
    if is_subset(inner, outer) {
        assert forall|x: u8| #[trigger] inner.contains(x) implies outer.contains(x) by {
            let i = choose|i: int| 0 <= i < inner.len() && inner[i] == x;
            assert(holds(outer, inner[i]));
            let j = choose|j: int| 0 <= j < outer.len() && #[trigger] outer[j].eq_spec(&inner[i]);
            assert(outer[j] == x);
        }
    }
    if forall|x: u8| #[trigger] inner.contains(x) ==> outer.contains(x) {
        assert forall|i: int| 0 <= i < inner.len() implies holds(outer, #[trigger] inner[i]) by {
            assert(inner.contains(inner[i]));
            let j = choose|j: int| 0 <= j < outer.len() && outer[j] == inner[i];
            assert(outer[j].eq_spec(&inner[i]));
        }
    }
}

/// Comparisons of two collections as sets: order and repetition do not count.
/// What is said of the answers holds for items whose `==` keeps to its
/// specification.
pub trait SubsetComparable<T> {
    /// The items of the collection.
    spec fn items(&self) -> Seq<T>;

    /// Whether each collection holds every item of the other.
    fn collection_equals(&self, other: &[T]) -> (equal: bool) where T: PartialEq
        ensures
            T::obeys_eq_spec() ==> equal == (is_subset(self.items(), other@) && is_subset(
                other@,
                self.items(),
            )),
    ;

    /// Whether `other` holds every item of this collection.
    fn is_subset_of(&self, other: &[T]) -> (subset: bool) where T: PartialEq
        ensures
            T::obeys_eq_spec() ==> subset == is_subset(self.items(), other@),
    ;

    /// Whether this collection holds every item of `other`.
    fn is_superset_of(&self, other: &[T]) -> (superset: bool) where T: PartialEq
        ensures
            T::obeys_eq_spec() ==> superset == is_subset(other@, self.items()),
    ;
}

impl<T> SubsetComparable<T> for [T] {
    open spec fn items(&self) -> Seq<T> {
        self@
    }

    fn collection_equals(&self, other: &[T]) -> (equal: bool) where T: PartialEq {
        self.is_subset_of(other) && other.is_subset_of(self)
    }

    fn is_subset_of(&self, other: &[T]) -> (subset: bool) where T: PartialEq {
        let mut i: usize = 0;
        while i < self.len()
            invariant
                i <= self.len(),
                T::obeys_eq_spec() ==> forall|k: int|
                    0 <= k < i ==> holds(other@, #[trigger] self@[k]),
            decreases self.len() - i,
        {
            if !slice_holds(other, &self[i]) {
                return false;
            }
            i += 1;
        }
        true
    }

    fn is_superset_of(&self, other: &[T]) -> (superset: bool) where T: PartialEq {
        other.is_subset_of(self)
    }
}

/// Whether `==` finds `item` among `items`.
fn slice_holds<T: PartialEq>(items: &[T], item: &T) -> (found: bool)
    ensures
        T::obeys_eq_spec() ==> found == holds(items@, *item),
{
    let mut j: usize = 0;
    while j < items.len()
        invariant
            j <= items.len(),
            T::obeys_eq_spec() ==> forall|k: int|
                0 <= k < j ==> !(#[trigger] items@[k]).eq_spec(item),
        decreases items.len() - j,
    {
        if items[j] == *item {
            return true;
        }
        j += 1;
    }
    false
}

} // verus!
