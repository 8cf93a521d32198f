//! Branch hints.
use vstd::prelude::*;

verus! {

/// Run `f` on a path that is expected to be taken rarely.
pub fn cold<R, F: Fn() -> R>(f: F) -> (r: R)
    requires
        f.requires(()),
    ensures
        f.ensures((), r),
{
    f()
}

} // verus!
