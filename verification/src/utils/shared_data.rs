//! A cached copy that tells whether the data it was taken from has changed.

use vstd::prelude::*;
use vstd::std_specs::cmp::PartialEqSpec;

verus! {

/// A reference and a copy of what it pointed to when the copy was taken.
pub struct CachedData<'a, T: Clone + PartialEq> {
    reference: &'a T,
    cached: T,
}

impl<'a, T: Clone + PartialEq> CachedData<'a, T> {
    /// What the reference points to.
    pub closed spec fn current(&self) -> T {
        *self.reference
    }

    /// The copy.
    pub closed spec fn cached_value(&self) -> T {
        self.cached
    }

    /// A cache of `reference`: the copy is a clone of what it points to.
    pub fn new(reference: &'a T) -> (c: Self)
        ensures
            c.current() == *reference,
            cloned(*reference, c.cached_value()),
    {
        CachedData { reference, cached: reference.clone() }
    }

    /// Whether what the reference points to differs from the copy, by `T`'s `!=`.
    pub fn is_cache_outdated(&self) -> (b: bool)
        ensures
            T::obeys_eq_spec() ==> b == !self.current().eq_spec(&self.cached_value()),
    {
        *self.reference != self.cached
    }
}

} // verus!
