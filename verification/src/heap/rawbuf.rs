//! A growable array that starts empty.
use vstd::prelude::*;

verus! {

use crate::heap::manual::Unique;

/// A growable array of `T`: a buffer of slots, the first `len` of them
/// initialised.
pub struct DynArray<T> {
    data: Unique<Option<T>>,
    len: usize,
}

impl<T> DynArray<T> {
    pub closed spec fn len_spec(&self) -> usize {
        self.len
    }

    /// An empty array that owns no buffer yet.
    pub fn new() -> (r: Self)
        ensures
            r.len_spec() == 0,
    {
        DynArray { data: Unique::empty_slice(), len: 0 }
    }

    pub fn len(&self) -> (r: usize)
        ensures
            r == self.len_spec(),
    {
        self.len
    }
}

} // verus!
