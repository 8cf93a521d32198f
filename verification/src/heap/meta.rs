//! Allocation identifiers with alignment, and the node layout of the
//! allocation-metadata index.
use vstd::prelude::*;

verus! {

use core::cmp::Ordering;

/// One allocation: its address, size and alignment. The allocation never
/// wraps around the end of the address space.
#[derive(Clone, Copy, Debug, PartialEq, Eq, Hash, Structural)]
pub struct AllocId {
    address: usize,
    size: usize,
    align: usize,
}

impl AllocId {
    #[verifier::type_invariant]
    spec fn fits_in_address_space(self) -> bool {
        self.address + self.size <= usize::MAX
    }

    pub closed spec fn address_spec(self) -> usize {
        self.address
    }

    pub closed spec fn size_spec(self) -> usize {
        self.size
    }

    pub closed spec fn align_spec(self) -> usize {
        self.align
    }

    /// The identifier of the allocation of `size` bytes at `address`, aligned
    /// to `align`. It must be a *possible* allocation: it may not run past
    /// the end of the address space.
    pub fn from_alloc(address: usize, size: usize, align: usize) -> (r: Self)
        requires
            address + size <= usize::MAX,
        ensures
            r.address_spec() == address,
            r.size_spec() == size,
            r.align_spec() == align,
    {
        AllocId { address, size, align }
    }

    /// Tests if `ptr` is interior to this allocation: `Less` below it,
    /// `Greater` at or past its end, `Equal` inside.
    pub fn test_interior_ptr(self, ptr: usize) -> (r: Ordering)
        ensures
            r == if ptr < self.address_spec() {
                Ordering::Less
            } else if ptr >= self.address_spec() + self.size_spec() {
                Ordering::Greater
            } else {
                Ordering::Equal
            },
    {
        proof {
            use_type_invariant(self);
        }
        let (start, end) = (self.address, self.address + self.size);
        // A pointer is either too low or too high, never both.
        //
        // |   ptr   | too_low | too_high |   Q  |
        // |:-------:|:-------:|:--------:|:----:|
        // | < start |   -1    |    0     |  -1  |
        // | >= end  |    0    |    1     |   1  |
        // | else    |    0    |    0     |   0  |
        let too_low: i8 = if ptr < start { -1 } else { 0 };
        let too_high: i8 = if ptr >= end { 1 } else { 0 };
        let q: i8 = too_low | too_high;
        proof {
            assert((-1i8 | 0i8) == -1i8) by (bit_vector);
            assert((0i8 | 1i8) == 1i8) by (bit_vector);
            assert((0i8 | 0i8) == 0i8) by (bit_vector);
        }
        match q {
            -1 => Ordering::Less,
            0 => Ordering::Equal,
            1 => Ordering::Greater,
            _ => vstd::pervasive::unreached(),
        }
    }
}

/// Metadata ascribed to an allocation (none is recorded yet).
#[derive(PartialEq, Eq, Hash, Debug)]
pub struct AllocMeta {}

/// A node of the allocation-metadata index: an allocation and the encoded
/// links to its greater and lesser neighbours.
pub struct AMINode {
    pub id: AllocId,
    /// First bit is reserved to mark null (0 -> null, 1 -> some)
    /// Second bit is reserved to mark color (0 -> Red, 1 -> Black)
    pub greater: usize,
    /// First bit is reserved to mark null (0 -> null, 1 -> some)
    /// Second bit is reserved, but is not used for anything
    pub lesser: usize,
}

#[derive(Debug)]
pub enum Color {
    Red,
    Black,
}

/// The index an encoded link stands for: `None` when its top bit (the null
/// mark) is clear, otherwise the link with its two top bits cleared.
pub open spec fn link_index(link: usize) -> Option<usize> {
    if link <= usize::MAX / 2 {
        None
    } else {
        Some((link as int % (usize::MAX / 4 + 1)) as usize)
    }
}

/// The color bit of an encoded link: its second-highest bit,
/// `usize::BITS - 2`.
pub open spec fn link_color_bit(link: usize) -> bool {
    (link >> ((usize::BITS - 2) as usize)) & 1usize == 1usize
}

proof fn lemma_all_ones_is_max()
    ensures
        !0usize == usize::MAX,
{
    assert(usize::BITS == 64 ==> (!0usize) as u64 == 0xffff_ffff_ffff_ffffu64) by (bit_vector);
    assert(usize::BITS == 32 ==> (!0usize) as u64 == 0xffff_ffffu64) by (bit_vector);
}

impl AMINode {
    pub fn as_index(index: usize) -> (r: Option<usize>)
        ensures
            r == link_index(index),
    {
        proof {
            lemma_all_ones_is_max();
            let m = !0usize;
            assert(((index & !(m >> 1)) == 0) == (index <= m / 2)) by (bit_vector)
                requires m == !0usize;
            assert((index & (m >> 2)) == (index as int % (m / 4 + 1)) as usize) by (bit_vector)
                requires m == !0usize;
        }
        let m = !0usize;
        if (index & !(m >> 1)) == 0 {
            None
        } else {
            Some(index & (m >> 2))
        }
    }

    pub fn greater(&self) -> (r: Option<usize>)
        ensures
            r == link_index(self.greater),
    {
        Self::as_index(self.greater)
    }

    /// Decodes the link stored in the `lesser` field.
    pub fn lesser(&self) -> (r: Option<usize>)
        ensures
            r == link_index(self.lesser),
    {
        Self::as_index(self.lesser)
    }

    /// Get the color of this node: black when the color bit (the
    /// second-highest bit) of `greater` is set, red when it is clear.
    pub fn color(&self) -> (r: Color)
        ensures
            r == if link_color_bit(self.greater) { Color::Black } else { Color::Red },
    {
        let shift: u32 = usize::BITS - 2;
        proof {
            assert(shift < usize::BITS);
            vstd::bits::lemma_usize_pow2_no_overflow(shift as nat);
            vstd::bits::lemma_usize_shl_is_mul(1, shift as usize);
            let g = self.greater;
            assert((g & (1usize << shift) != 0) == ((g >> shift) & 1usize == 1usize)) by (bit_vector)
                requires shift < usize::BITS;
            assert((g >> shift) == (g >> (shift as usize)));
        }
        let is_black = self.greater & (1usize << shift) != 0;
        if is_black {
            Color::Black
        } else {
            Color::Red
        }
    }
}

/// An index from allocations to their metadata.
pub struct AllocMetaIndex {
    heap: Vec<AMINode>,
}

impl AllocMetaIndex {
    /// An empty index.
    pub fn new() -> (r: Self)
        ensures
            r.nodes()@.len() == 0,
    {
        AllocMetaIndex { heap: Vec::new() }
    }

    pub closed spec fn nodes(&self) -> Vec<AMINode> {
        self.heap
    }
}

} // verus!
