//! Names that read better at the places where they are used.

use std::slice::Iter;
use vstd::prelude::*;
use vstd::std_specs::slice::spec_slice_iter;

verus! {

pub type Vector<T> = Vec<T>;

pub type StringSlice<'a> = &'a str;

/// Reads as `iterate` what the standard library calls `iter`.
pub trait Iteratable<T> {
    /// The iterator that `iterate` gives.
    spec fn iterator(&self) -> Iter<'_, T>;

    /// An iterator over the items, first to last.
    fn iterate(&self) -> (iter: Iter<'_, T>)
        ensures
            iter == self.iterator(),
    ;
}

impl<T> Iteratable<T> for [T] {
    open spec fn iterator(&self) -> Iter<'_, T> {
        spec_slice_iter(self)
    }

    fn iterate(&self) -> (iter: Iter<'_, T>) {
        self.iter()
    }
}

} // verus!
