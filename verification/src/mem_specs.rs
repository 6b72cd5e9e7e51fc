//! Specifications of two functions of `core`, taken on trust from their
//! documentation.

use vstd::prelude::*;

verus! {

/// `core::mem::replace` moves `src` into `dest` and returns what `dest`
/// held.
pub assume_specification<T>[ core::mem::replace::<T> ](dest: &mut T, src: T) -> (prev: T)
    ensures
        *final(dest) == src,
        prev == *old(dest),
;

/// `Default::default` for a mutable slice returns an empty slice.
pub assume_specification<'a, T>[ <&'a mut [T] as core::default::Default>::default ]() -> (empty:
    &'a mut [T])
    ensures
        empty@.len() == 0,
;

} // verus!
