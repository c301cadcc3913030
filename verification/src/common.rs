//! A fixed array read by position or by range, and the names of the
//! identifiers of an instance.
use crate::types::{IID, RID, SID};
use std::collections::HashMap;
use std::ops::{Index, Range};
use vstd::prelude::*;

verus! {

/// A fixed-size array, read by position or by range.
#[derive(Debug)]
pub struct UnsafeFixArray<T> {
    array: Vec<T>,
}

/// A range given by its first position and its length.
pub struct A {
    pub start: usize,
    pub len: usize,
}

impl<T> View for UnsafeFixArray<T> {
    type V = Seq<T>;

    closed spec fn view(&self) -> Seq<T> {
        self.array@
    }
}

impl<T> UnsafeFixArray<T> {
    /// The number of elements.
    pub fn len(&self) -> (r: usize)
        ensures
            r == self@.len(),
    {
        self.array.len()
    }
}

impl<T> Index<usize> for UnsafeFixArray<T> {
    type Output = T;

    fn index(&self, idx: usize) -> (r: &T)
        ensures
            *r == self@[idx as int],
    {
        &self.array[idx]
    }
}

impl<T> vstd::std_specs::core::IndexSpecImpl<usize> for UnsafeFixArray<T> {
    open spec fn index_req(&self, idx: &usize) -> bool {
        *idx < self@.len()
    }
}

impl<T> Index<A> for UnsafeFixArray<T> {
    type Output = [T];

    fn index(&self, rng: A) -> (r: &[T])
        ensures
            r@ == self@.subrange(rng.start as int, rng.start + rng.len),
    {
        let n = self.array.len();
        assert(rng.start + rng.len <= n);
        &self.array.as_slice()[rng.start..rng.start + rng.len]
    }
}

impl<T> vstd::std_specs::core::IndexSpecImpl<A> for UnsafeFixArray<T> {
    /// The range starts on an element and ends within the array.
    open spec fn index_req(&self, rng: &A) -> bool {
        rng.start < self@.len() && rng.start + rng.len <= self@.len()
    }
}

impl<T> Index<Range<usize>> for UnsafeFixArray<T> {
    type Output = [T];

    /// The elements from `rng.start` up to `rng.end`; none when the range
    /// is empty or reversed.
    fn index(&self, rng: Range<usize>) -> (r: &[T])
        ensures
            r@ == if rng.start < rng.end {
                self@.subrange(rng.start as int, rng.end as int)
            } else {
                Seq::empty()
            },
    {
        let len = if rng.start < rng.end {
            rng.end - rng.start
        } else {
            0
        };
        &self.array.as_slice()[rng.start..rng.start + len]
    }
}

impl<T> vstd::std_specs::core::IndexSpecImpl<Range<usize>> for UnsafeFixArray<T> {
    /// The range starts on an element and ends within the array.
    open spec fn index_req(&self, rng: &Range<usize>) -> bool {
        rng.start < self@.len() && (rng.start < rng.end ==> rng.end <= self@.len())
    }
}

impl<T> From<Vec<T>> for UnsafeFixArray<T> {
    fn from(array: Vec<T>) -> (r: Self)
        ensures
            r@ == array@,
    {
        UnsafeFixArray { array }
    }
}

impl<T> vstd::std_specs::convert::FromSpecImpl<Vec<T>> for UnsafeFixArray<T> {
    open spec fn obeys_from_spec() -> bool {
        true
    }

    closed spec fn from_spec(array: Vec<T>) -> Self {
        UnsafeFixArray { array }
    }
}

impl<T> From<Box<[T]>> for UnsafeFixArray<T> {
    fn from(array: Box<[T]>) -> (r: Self)
        ensures
            r@ == array@,
    {
        UnsafeFixArray { array: array.into_vec() }
    }
}

impl<T> vstd::std_specs::convert::FromSpecImpl<Box<[T]>> for UnsafeFixArray<T> {
    open spec fn obeys_from_spec() -> bool {
        false
    }

    closed spec fn from_spec(array: Box<[T]>) -> Self {
        choose|r: Self| r@ == array@
    }
}

/// The names of the resources, of the interventions and of the seasons.
#[derive(Debug)]
pub struct MaintenanceMapping {
    pub resources: HashMap<RID, String>,
    pub interventions: HashMap<IID, String>,
    pub seasons: HashMap<SID, String>,
}

} // verus!
