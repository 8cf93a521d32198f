//! The request logic of an allocator backed by `dlmalloc()`.
use vstd::prelude::*;

verus! {

use crate::heap::tracing::AllocLayout;
use crate::os::mem::AllocError;

/// The `dlmalloc` entry point that serves a request.
#[derive(Clone, Copy, Debug, PartialEq, Eq, Structural)]
pub enum DlCall {
    /// `dlmalloc(size)`
    Malloc { size: usize },
    /// `dlmemalign(size, align)`
    Memalign { size: usize, align: usize },
}

/// An allocator backed by `dlmalloc()`.
pub struct DlMalloc(());

impl DlMalloc {
    /// The minimum alignment that `DlMalloc` allocates to
    pub const MIN_ALIGN: usize = 8;

    /// Construct a new `DlMalloc` allocator. This is a no-op.
    pub fn new() -> Self {
        DlMalloc(())
    }

    /// Which entry point serves `layout`: plain `dlmalloc` when its minimum
    /// alignment suffices, `dlmemalign` otherwise.
    pub fn allocation_call(&self, layout: AllocLayout) -> (r: DlCall)
        ensures
            r == if layout.align <= Self::MIN_ALIGN {
                DlCall::Malloc { size: layout.size }
            } else {
                DlCall::Memalign { size: layout.size, align: layout.align }
            },
    {
        if layout.align <= Self::MIN_ALIGN {
            DlCall::Malloc { size: layout.size }
        } else {
            DlCall::Memalign { size: layout.size, align: layout.align }
        }
    }

    /// The outcome of a call that returned address `data` for `layout`: a
    /// null address is an allocation error, any other the block of
    /// `layout.size` bytes there.
    pub fn allocation_result(&self, data: usize, layout: AllocLayout) -> (r: Result<(usize, usize), AllocError>)
        ensures
            data == 0 ==> r is Err,
            data != 0 ==> r == Ok::<(usize, usize), AllocError>((data, layout.size)),
    {
        if data != 0 {
            Ok((data, layout.size))
        } else {
            Err(AllocError)
        }
    }
}

} // verus!
