//! Address predicates.
use vstd::prelude::*;

verus! {

/// Test if the address `ptr` is aligned to a multiple of `align`
pub fn aligned_to(ptr: usize, align: usize) -> (r: bool)
    requires
        align > 0,
    ensures
        r == (ptr % align == 0),
{
    ptr % align == 0
}

/// Test if the address `ptr` is non-null (`true` if it is non-null)
pub fn non_null(ptr: usize) -> (r: bool)
    ensures
        r == (ptr != 0),
{
    ptr != 0
}

} // verus!
