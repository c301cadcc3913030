//! Element-wise operations on slices.
use std::ops::{Add, Sub};
use vstd::prelude::*;
use vstd::std_specs::ops::{AddSpec, SubSpec};

verus! {

/// Adds `y` to `x`, element by element, on the positions that both have.
#[inline(always)]
pub fn add_vec_in_place<T: Copy + Add<Output = T>>(x: &mut [T], y: &[T])
    requires
        forall|i: int|
            0 <= i < old(x)@.len() && i < y@.len() ==> #[trigger] old(x)@[i].add_req(y@[i]),
    ensures
        final(x)@.len() == old(x)@.len(),
        forall|i: int|
            0 <= i < old(x)@.len() && i < y@.len() ==> T::obeys_add_spec() ==> #[trigger] final(x)@[i] == old(x)@[i].add_spec(y@[i]),
        forall|i: int| y@.len() <= i < old(x)@.len() ==> #[trigger] final(x)@[i] == old(x)@[i],
{
    let n = if x.len() < y.len() {
        x.len()
    } else {
        y.len()
    };
    let mut i: usize = 0;
    while i < n
        invariant
            0 <= i <= n,
            n <= y@.len(),
            n <= old(x)@.len(),
            n == old(x)@.len() || n == y@.len(),
            x@.len() == old(x)@.len(),
            forall|j: int| 0 <= j < old(x)@.len() && j < y@.len() ==> #[trigger] old(x)@[j].add_req(y@[j]),
            forall|j: int| 0 <= j < i ==> T::obeys_add_spec() ==> #[trigger] x@[j] == old(x)@[j].add_spec(y@[j]),
            forall|j: int| i <= j < old(x)@.len() ==> #[trigger] x@[j] == old(x)@[j],
        decreases n - i,
    {
        let v = x[i] + y[i];
        x[i] = v;
        i = i + 1;
    }
}

/// Subtracts `y` from `x`, element by element, on the positions that both have.
#[inline(always)]
pub fn sub_vec_in_place<T: Copy + Sub<Output = T>>(x: &mut [T], y: &[T])
    requires
        forall|i: int|
            0 <= i < old(x)@.len() && i < y@.len() ==> #[trigger] old(x)@[i].sub_req(y@[i]),
    ensures
        final(x)@.len() == old(x)@.len(),
        forall|i: int|
            0 <= i < old(x)@.len() && i < y@.len() ==> T::obeys_sub_spec() ==> #[trigger] final(x)@[i] == old(x)@[i].sub_spec(y@[i]),
        forall|i: int| y@.len() <= i < old(x)@.len() ==> #[trigger] final(x)@[i] == old(x)@[i],
{
    let n = if x.len() < y.len() {
        x.len()
    } else {
        y.len()
    };
    let mut i: usize = 0;
    while i < n
        invariant
            0 <= i <= n,
            n <= y@.len(),
            n <= old(x)@.len(),
            n == old(x)@.len() || n == y@.len(),
            x@.len() == old(x)@.len(),
            forall|j: int| 0 <= j < old(x)@.len() && j < y@.len() ==> #[trigger] old(x)@[j].sub_req(y@[j]),
            forall|j: int| 0 <= j < i ==> T::obeys_sub_spec() ==> #[trigger] x@[j] == old(x)@[j].sub_spec(y@[j]),
            forall|j: int| i <= j < old(x)@.len() ==> #[trigger] x@[j] == old(x)@[j],
        decreases n - i,
    {
        let v = x[i] - y[i];
        x[i] = v;
        i = i + 1;
    }
}

} // verus!
