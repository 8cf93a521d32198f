//! A mapped region of memory and a bump allocator over it.
use vstd::prelude::*;

verus! {

use crate::heap::tracing::AllocLayout;
use crate::util::num::{round_up, round_up_spec};

/// The system's memory page size, as `page_size::get` reports it. What it
/// returns depends on the machine, so nothing is stated of it.
#[verifier::external_body]
fn system_page_size() -> (r: usize) {
    page_size::get()
}

/// A read/write region of `size` bytes at address `ptr`, obtained from the
/// operating system (mapping and unmapping it is the caller's part).
pub struct MmapRegion {
    ptr: usize,
    size: usize,
}

impl MmapRegion {
    /// The region never wraps around the end of the address space.
    #[verifier::type_invariant]
    spec fn in_address_space(self) -> bool {
        self.ptr + self.size <= usize::MAX
    }

    pub closed spec fn ptr_spec(&self) -> usize {
        self.ptr
    }

    pub closed spec fn size_spec(&self) -> usize {
        self.size
    }

    /// The region of `size` bytes mapped at `ptr`.
    pub fn from_raw(ptr: usize, size: usize) -> (r: Self)
        requires
            ptr + size <= usize::MAX,
        ensures
            r.ptr_spec() == ptr,
            r.size_spec() == size,
    {
        MmapRegion { ptr, size }
    }

    pub fn ptr(&self) -> (r: usize)
        ensures
            r == self.ptr_spec(),
    {
        self.ptr
    }

    pub fn size(&self) -> (r: usize)
        ensures
            r == self.size_spec(),
    {
        self.size
    }

    /// How many bytes to map for a request of `size` bytes with pages of
    /// `page_size` bytes: `size` rounded up to whole pages.
    pub fn round_to_pages(size: usize, page_size: usize) -> (r: usize)
        requires
            page_size > 0,
            size + page_size - 1 <= usize::MAX,
        ensures
            r == round_up_spec(size as nat, page_size as nat),
            size <= r < size + page_size,
            r % page_size == 0,
    {
        round_up(size, page_size)
    }

    /// How many bytes to map for a request of `size` bytes with pages of
    /// `page_size` bytes: `size` rounded up to whole pages, or `None` when
    /// the page size is 0 or the rounding would not fit in a `usize`.
    pub fn mapping_size_with_page(size: usize, page_size: usize) -> (r: Option<usize>)
        ensures
            r == mapping_size_spec(size, page_size),
    {
        if page_size == 0 || size > usize::MAX - (page_size - 1) {
            return None;
        }
        Some(Self::round_to_pages(size, page_size))
    }

    /// How many bytes to map for a request of `size` bytes on this machine:
    /// [`MmapRegion::mapping_size_with_page`] for the system's page size.
    pub fn mapping_size(size: usize) -> (r: Option<usize>)
        requires
            size > 0,
        ensures
            exists|page: usize| r == #[trigger] mapping_size_spec(size, page),
    {
        let page = system_page_size();
        Self::mapping_size_with_page(size, page)
    }
}

/// The bytes to map for `size` bytes with pages of `page_size` bytes.
pub open spec fn mapping_size_spec(size: usize, page_size: usize) -> Option<usize> {
    if page_size == 0 || size + page_size - 1 > usize::MAX {
        None
    } else {
        Some(round_up_spec(size as nat, page_size as nat) as usize)
    }
}

/// Whether `m` bytes are a whole number of pages of `page_size` bytes.
pub open spec fn whole_pages(m: int, page_size: int) -> bool {
    m % page_size == 0
}

/// With pages of `page_size` bytes, the bytes mapped for a request of
/// `size` bytes are the fewest whole pages that hold the request: at least
/// one page for a non-empty request, and less than one page more than
/// asked. There is no such size only for pages of 0 bytes or when it would
/// not fit in a `usize`.
pub proof fn lemma_mapping_is_fewest_whole_pages(size: usize, page_size: usize)
    ensures
        mapping_size_spec(size, page_size) is None <==> (page_size == 0 || size + page_size - 1 > usize::MAX),
        mapping_size_spec(size, page_size) matches Some(r) ==> {
            &&& r % page_size == 0
            &&& size <= r < size + page_size
            &&& size > 0 ==> r >= page_size
            &&& forall|m: int| size <= m && #[trigger] whole_pages(m, page_size as int) ==> r <= m
        },
{
    if page_size > 0 && size + page_size - 1 <= usize::MAX {
        crate::util::num::lemma_round_up_properties(size as nat, page_size as nat);
        let r = round_up_spec(size as nat, page_size as nat);
        assert forall|m: int| size <= m && #[trigger] whole_pages(m, page_size as int) implies r <= m by {
            let p = page_size as int;
            vstd::arithmetic::div_mod::lemma_fundamental_div_mod(r as int, p);
            vstd::arithmetic::div_mod::lemma_fundamental_div_mod(m, p);
            let qr = r as int / p;
            let qm = m / p;
            assert(r == p * qr);
            assert(m == p * qm);
            if m < r {
                assert(qm < qr) by (nonlinear_arith)
                    requires m == p * qm, r == p * qr, m < r, p > 0;
                assert(m <= r - p) by (nonlinear_arith)
                    requires m == p * qm, r == p * qr, qm < qr, p > 0;
            }
        }
        if size > 0 {
            if r < page_size {
                vstd::arithmetic::div_mod::lemma_small_mod(r, page_size as nat);
            }
        }
    }
}

/// The error of an allocation that does not fit.
#[derive(Debug)]
pub struct AllocError;

/// A simple stack allocator over a [`MmapRegion`]: allocation bumps a stack
/// pointer and deallocation does nothing. It can be used while the global
/// heap lock is held, since it never calls the heap allocator.
pub struct StackAlloc {
    arena: MmapRegion,
    sp: usize,
}

impl StackAlloc {
    pub closed spec fn arena_ptr(&self) -> usize {
        self.arena.ptr
    }

    pub closed spec fn arena_size(&self) -> usize {
        self.arena.size
    }

    /// The offset of the first free byte.
    pub closed spec fn sp(&self) -> usize {
        self.sp
    }

    /// A stack allocator over `arena`, with nothing allocated yet.
    pub fn new(arena: MmapRegion) -> (r: Self)
        ensures
            r.arena_ptr() == arena.ptr_spec(),
            r.arena_size() == arena.size_spec(),
            r.sp() == 0,
    {
        StackAlloc { arena, sp: 0 }
    }

    /// The offset of the first free byte of the arena.
    pub fn stack_pointer(&self) -> (r: usize)
        ensures
            r == self.sp(),
    {
        self.sp
    }

    /// The size of the arena.
    pub fn capacity(&self) -> (r: usize)
        ensures
            r == self.arena_size(),
    {
        self.arena.size
    }

    /// Bump-allocate `layout.size` bytes aligned to `layout.align`: the stack
    /// pointer is first rounded up to the alignment, and the block starts
    /// there. The request must fit in what remains of the arena (the
    /// allocator caps out at the top of its arena). Returns the address and
    /// length of the block.
    pub fn allocate(&mut self, layout: AllocLayout) -> (r: Result<(usize, usize), AllocError>)
        requires
            layout.align > 0,
            old(self).sp() + layout.align - 1 <= usize::MAX,
            round_up_spec(old(self).sp() as nat, layout.align as nat) + layout.size <= old(self).arena_size(),
        ensures
            final(self).arena_ptr() == old(self).arena_ptr(),
            final(self).arena_size() == old(self).arena_size(),
            ({
                let start = round_up_spec(old(self).sp() as nat, layout.align as nat);
                &&& r matches Ok((addr, len))
                &&& addr == old(self).arena_ptr() + start
                &&& len == layout.size
                &&& (start as int) % (layout.align as int) == 0
                &&& old(self).sp() <= start
                &&& addr + len <= old(self).arena_ptr() + old(self).arena_size()
                &&& final(self).sp() == start + layout.size
            }),
    {
        proof {
            use_type_invariant(&self.arena);
            crate::util::num::lemma_round_up_properties(self.sp as nat, layout.align as nat);
        }
        self.sp = round_up(self.sp, layout.align);
        if self.arena.size - self.sp >= layout.size {
            let data = self.arena.ptr + self.sp;
            self.sp = self.sp + layout.size;
            Ok((data, layout.size))
        } else {
            Err(AllocError)
        }
    }

    /// Deallocation is a no-op.
    pub fn deallocate(&self, ptr: usize, layout: AllocLayout) {
    }
}

/// Blocks handed out one after the other do not overlap: the second one
/// starts no earlier than the end of the first.
pub proof fn lemma_bump_allocations_disjoint(sp: nat, align1: nat, size1: nat, align2: nat)
    requires
        align1 > 0,
        align2 > 0,
    ensures
        round_up_spec(sp, align1) + size1 <= round_up_spec(round_up_spec(sp, align1) + size1, align2),
        sp <= round_up_spec(sp, align1),
{
    crate::util::num::lemma_round_up_properties(sp, align1);
    crate::util::num::lemma_round_up_properties(round_up_spec(sp, align1) + size1, align2);
}

} // verus!
