//! A growable bit map, with one bit per address of the traced arena.
//!
//! Bit `i` lives in chunk `i / 64` at bit offset `i % 64`. Chunks beyond the
//! buffer read as zero, so growing the buffer never changes which bits are
//! high.
use vstd::prelude::*;

verus! {

use vstd::arithmetic::power2::pow2;
use vstd::std_specs::bits::{u64_leading_zeros, axiom_u64_leading_zeros};
use crate::heap::manual::{Unique, slice_layout_spec};
use crate::util::num::{log2ceil, log2ceil_spec};

pub type BitChunk = u64;

/// Number of bits in a [`BitChunk`].
pub const CHUNK_BITS: usize = 64;

/// Whether bit `b` of chunk `c` is high.
pub open spec fn chunk_bit(c: u64, b: int) -> bool {
    0 <= b < 64 && (c >> (b as u64)) & 1u64 == 1u64
}

/// Whether bit `i` of a map stored as `chunks` is high.
pub open spec fn bit_high(chunks: Seq<u64>, i: int) -> bool {
    0 <= i && i / 64 < chunks.len() && chunk_bit(chunks[i / 64], i % 64)
}

/// Get the index and bit offset for a specified index. For example, if we
/// are using 64-bit chunks, then index 74 would return (1, 10). The second
/// number is always less than the number of bits in a chunk.
///
/// The chunk index is not guaranteed to be accessible. You should check
/// first.
pub fn index_offset(index: usize) -> (r: (usize, usize))
    ensures
        r.0 == index / 64,
        r.1 == index % 64,
        r.0 * 64 + r.1 == index,
{
    let chunk_index = index / CHUNK_BITS;
    let bit_offset = index % CHUNK_BITS;
    (chunk_index, bit_offset)
}

proof fn lemma_decompose(k: int, t: int)
    requires
        0 <= k,
        0 <= t < 64,
    ensures
        (k * 64 + t) / 64 == k,
        (k * 64 + t) % 64 == t,
{
    vstd::arithmetic::div_mod::lemma_fundamental_div_mod_converse(k * 64 + t, 64, k, t);
}

proof fn lemma_shl_bit_high(c: u64, sh: u64, p: u64)
    requires
        sh < 64,
        sh <= p < 64,
    ensures
        ((c << sh) >> p) & 1u64 == (c >> ((p - sh) as u64)) & 1u64,
{
    assert(((c << sh) >> p) & 1u64 == (c >> ((p - sh) as u64)) & 1u64) by (bit_vector)
        requires
            sh < 64,
            sh <= p < 64,
    ;
}

proof fn lemma_shl_bit_low(c: u64, sh: u64, p: u64)
    requires
        p < sh < 64,
    ensures
        ((c << sh) >> p) & 1u64 == 0u64,
{
    assert(((c << sh) >> p) & 1u64 == 0u64) by (bit_vector)
        requires
            p < sh < 64,
    ;
}

proof fn lemma_low_bit(x: u64)
    ensures
        (x & 1u64 != 0u64) == (x & 1u64 == 1u64),
{
    assert((x & 1u64 != 0u64) == (x & 1u64 == 1u64)) by (bit_vector);
}

proof fn lemma_zero_bits(p: u64)
    ensures
        (0u64 >> p) & 1u64 == 0u64,
{
    assert((0u64 >> p) & 1u64 == 0u64) by (bit_vector);
}

/// What shifting the bits `0..=top` of `c` to the top of a chunk tells about
/// the highest high bit of `c` that is not above `top`.
proof fn lemma_top_scan(c: u64, top: u64)
    requires
        top < 64,
    ensures
        (c << ((63 - top) as u64)) == 0 ==> forall|j: int| 0 <= j <= top ==> !chunk_bit(c, j),
        (c << ((63 - top) as u64)) != 0 ==> {
            let l = u64_leading_zeros(c << ((63 - top) as u64));
            &&& 0 <= l <= top
            &&& chunk_bit(c, top - l)
            &&& forall|j: int| top - l < j <= top ==> !chunk_bit(c, j)
        },
{
    let sh = (63 - top) as u64;
    let s = c << sh;
    if s == 0 {
        assert forall|j: int| 0 <= j <= top implies !chunk_bit(c, j) by {
            let p = (j + sh) as u64;
            lemma_shl_bit_high(c, sh, p);
            lemma_zero_bits(p);
            assert((p - sh) as u64 == j as u64);
        }
    } else {
        axiom_u64_leading_zeros(s);
        let l = u64_leading_zeros(s);
        assert(0 <= l < 64);
        let p = (63 - l) as u64;
        lemma_low_bit(s >> p);
        if p < sh {
            lemma_shl_bit_low(c, sh, p);
            assert(false);
        }
        lemma_shl_bit_high(c, sh, p);
        assert((p - sh) as u64 == (top - l) as u64);
        assert forall|j: int| top - l < j <= top implies !chunk_bit(c, j) by {
            let q = (j + sh) as u64;
            lemma_shl_bit_high(c, sh, q);
            assert(64 - l <= q < 64);
            assert((s >> q) & 1u64 == 0u64);
            assert((q - sh) as u64 == j as u64);
        }
    }
}

/// Setting bit `b` of a chunk changes that bit only.
proof fn lemma_set_bit(c: u64, b: u64, j: u64)
    requires
        b < 64,
        j < 64,
    ensures
        ((c | (1u64 << b)) >> j) & 1u64 == if j == b { 1u64 } else { (c >> j) & 1u64 },
{
    assert(((c | (1u64 << b)) >> j) & 1u64 == if j == b { 1u64 } else { (c >> j) & 1u64 })
        by (bit_vector)
        requires
            b < 64,
            j < 64,
    ;
}

/// Clearing bit `b` of a chunk changes that bit only.
proof fn lemma_clear_bit(c: u64, b: u64, j: u64)
    requires
        b < 64,
        j < 64,
    ensures
        ((c & !(1u64 << b)) >> j) & 1u64 == if j == b { 0u64 } else { (c >> j) & 1u64 },
{
    assert(((c & !(1u64 << b)) >> j) & 1u64 == if j == b { 0u64 } else { (c >> j) & 1u64 })
        by (bit_vector)
        requires
            b < 64,
            j < 64,
    ;
}

proof fn lemma_grow_exponent(chunk_index: usize, e: u32)
    requires
        chunk_index <= usize::MAX / 2,
        e as nat == log2ceil_spec(chunk_index as nat + 1),
    ensures
        e < usize::BITS,
        (1usize << e) == pow2(e as nat),
        chunk_index < pow2(e as nat),
{
    let n = chunk_index as nat + 1;
    vstd::arithmetic::power2::lemma2_to64();
    vstd::arithmetic::power2::lemma2_to64_rest();
    if n >= 2 {
        crate::util::num::lemma_log2ceil_is_least_power(n);
        if e >= usize::BITS {
            if e - 1 > usize::BITS - 1 {
                vstd::arithmetic::power2::lemma_pow2_strictly_increases((usize::BITS - 1) as nat, (e - 1) as nat);
            }
            assert(false);
        }
    }
    assert(e < usize::BITS);
    vstd::bits::lemma_usize_pow2_no_overflow(e as nat);
    vstd::bits::lemma_usize_shl_is_mul(1, e as usize);
}

/// The number of chunks a map grows to when chunk `chunk_index` must fit.
pub open spec fn grown_len(chunk_index: nat) -> nat {
    let p = pow2(log2ceil_spec(chunk_index + 1));
    if p >= 16 { p } else { 16 }
}

/// Facts about the layout of a run of `u64` chunks.
proof fn lemma_chunk_layout(n: int)
    ensures
        0 <= 8 * n <= isize::MAX - 7 ==> slice_layout_spec::<u64>(n) is Some,
        slice_layout_spec::<u64>(n) is Some ==> 0 <= 8 * n <= isize::MAX,
{
    broadcast use vstd::layout::group_layout_axioms;
    let a = vstd::layout::align_of::<u64>();
    assert(vstd::layout::size_of::<u64>() == 8);
    assert(8nat % a == 0);
    assert(a > 0);
    if a > 8 {
        vstd::arithmetic::div_mod::lemma_small_mod(8nat, a);
    }
    assert(a <= 8);
    vstd::arithmetic::div_mod::lemma_mod_bound(isize::MAX as int, a as int);
}

/// Growing for a chunk that a `usize` bit index can reach asks for a
/// possible layout.
proof fn lemma_grown_len_fits(c: nat)
    requires
        c <= usize::MAX / 64,
    ensures
        slice_layout_spec::<u64>(grown_len(c) as int) is Some,
{
    let e = log2ceil_spec(c + 1);
    let p = pow2(e);
    vstd::arithmetic::power2::lemma2_to64();
    if c + 1 >= 2 {
        crate::util::num::lemma_log2ceil_is_least_power(c + 1);
        vstd::arithmetic::power2::lemma_pow2_unfold(e);
        assert(p < 2 * (c + 1));
    } else {
        assert(e == 1);
        assert(p == 2);
    }
    assert(usize::MAX == 0xffff_ffff || usize::MAX == 0xffff_ffff_ffff_ffff);
    assert(isize::MAX == 0x7fff_ffff || isize::MAX == 0x7fff_ffff_ffff_ffff);
    assert(usize::MAX == 0xffff_ffff ==> isize::MAX == 0x7fff_ffff);
    lemma_chunk_layout(grown_len(c) as int);
}

/// A possible layout for the grown map leaves the chunk index small.
proof fn lemma_fitting_growth_is_small(c: nat)
    requires
        slice_layout_spec::<u64>(grown_len(c) as int) is Some,
    ensures
        c <= usize::MAX / 2,
{
    lemma_chunk_layout(grown_len(c) as int);
    let e = log2ceil_spec(c + 1);
    if c + 1 >= 2 {
        crate::util::num::lemma_log2ceil_is_least_power(c + 1);
    }
    assert(c + 1 <= grown_len(c));
    assert(isize::MAX <= usize::MAX / 2) by {
        assert(isize::MAX == 0x7fff_ffff || isize::MAX == 0x7fff_ffff_ffff_ffff);
        assert(usize::MAX == 0xffff_ffff || usize::MAX == 0xffff_ffff_ffff_ffff);
        assert(usize::MAX == 0xffff_ffff ==> isize::MAX == 0x7fff_ffff);
    }
}

/// A handle on one bit of a [`BitMap`]: its chunk index and its offset in
/// that chunk.
pub struct BitHandle {
    chunk_index: usize,
    bit_index: usize,
}

impl BitHandle {
    #[verifier::type_invariant]
    spec fn well_formed(self) -> bool {
        &&& self.bit_index < 64
        &&& self.chunk_index * 64 + self.bit_index <= usize::MAX
    }

    /// The bit index that this handle stands for.
    pub closed spec fn index(self) -> nat {
        (self.chunk_index * 64 + self.bit_index) as nat
    }

    /// Construct a new [`BitHandle`] for the bit at `index`.
    pub fn new(index: usize) -> (r: Self)
        ensures
            r.index() == index,
    {
        let (chunk_index, bit_index) = index_offset(index);
        BitHandle { chunk_index, bit_index }
    }

    /// Check that the bit of this handle lies inside the buffer; if it does
    /// not, grow the buffer of `bit_map` to fit it.
    pub fn ensure_index_exists(&self, bit_map: &mut BitMap)
        ensures
            (self.index() / 64) < final(bit_map)@.len(),
            forall|i: int| #[trigger] final(bit_map).is_high(i) == old(bit_map).is_high(i),
            final(bit_map)@.len() == if (self.index() / 64) < old(bit_map)@.len() {
                old(bit_map)@.len()
            } else {
                grown_len(self.index() / 64)
            },
    {
        proof {
            use_type_invariant(self);
            lemma_decompose(self.chunk_index as int, self.bit_index as int);
        }
        if !bit_map.chunk_in_bounds(self.chunk_index) {
            while !bit_map.chunk_in_bounds(self.chunk_index)
                invariant
                    self.index() / 64 == self.chunk_index,
                    self.chunk_index <= usize::MAX / 64,
                    self.chunk_index >= old(bit_map)@.len() ==> bit_map@.len() == old(bit_map)@.len()
                        || bit_map@.len() == grown_len(self.chunk_index as nat),
                    self.chunk_index >= old(bit_map)@.len(),
                    forall|i: int| #[trigger] bit_map.is_high(i) == old(bit_map).is_high(i),
                decreases (if bit_map.chunk_in_bounds_spec(self.chunk_index) { 0int } else { 1int }),
            {
                proof {
                    lemma_grown_len_fits(self.chunk_index as nat);
                }
                bit_map.grow(self.chunk_index);
            }
        }
    }

    /// Set the bit at this index to `1`, growing the buffer if needed.
    pub fn set_high(self, bit_map: &mut BitMap)
        ensures
            final(bit_map).is_high(self.index() as int),
            forall|i: int| i != self.index() ==> #[trigger] final(bit_map).is_high(i) == old(bit_map).is_high(i),
            final(bit_map)@.len() == if (self.index() / 64) < old(bit_map)@.len() {
                old(bit_map)@.len()
            } else {
                grown_len(self.index() / 64)
            },
    {
        self.ensure_index_exists(bit_map);
        proof {
            use_type_invariant(&self);
            lemma_decompose(self.chunk_index as int, self.bit_index as int);
        }
        let ghost mid = *bit_map;
        let ghost before = bit_map@;
        let ci = self.chunk_index;
        let b = self.bit_index;
        let chunk = bit_map.buf.as_slice()[ci];
        bit_map.set_chunk(ci, chunk | (1u64 << (b as u64)));
        proof {
            assert forall|i: int| i != self.index() implies #[trigger] bit_map.is_high(i) == old(bit_map).is_high(i) by {
                assert(mid.is_high(i) == old(bit_map).is_high(i));
                if i >= 0 && i / 64 == ci {
                    lemma_set_bit(chunk, b as u64, (i % 64) as u64);
                    lemma_decompose(i / 64, i % 64);
                }
            }
            lemma_set_bit(chunk, b as u64, b as u64);
        }
    }

    /// Set the bit at this index to `0`, growing the buffer if needed.
    pub fn set_low(self, bit_map: &mut BitMap)
        ensures
            !final(bit_map).is_high(self.index() as int),
            forall|i: int| i != self.index() ==> #[trigger] final(bit_map).is_high(i) == old(bit_map).is_high(i),
            final(bit_map)@.len() == if (self.index() / 64) < old(bit_map)@.len() {
                old(bit_map)@.len()
            } else {
                grown_len(self.index() / 64)
            },
    {
        self.ensure_index_exists(bit_map);
        proof {
            use_type_invariant(&self);
            lemma_decompose(self.chunk_index as int, self.bit_index as int);
        }
        let ghost mid = *bit_map;
        let ghost before = bit_map@;
        let ci = self.chunk_index;
        let b = self.bit_index;
        let chunk = bit_map.buf.as_slice()[ci];
        bit_map.set_chunk(ci, chunk & !(1u64 << (b as u64)));
        proof {
            assert forall|i: int| i != self.index() implies #[trigger] bit_map.is_high(i) == old(bit_map).is_high(i) by {
                assert(mid.is_high(i) == old(bit_map).is_high(i));
                if i >= 0 && i / 64 == ci {
                    lemma_clear_bit(chunk, b as u64, (i % 64) as u64);
                    lemma_decompose(i / 64, i % 64);
                }
            }
            lemma_clear_bit(chunk, b as u64, b as u64);
        }
    }

    /// Scan backward, starting at the current index, looking for a high bit.
    /// Returns the number of steps taken, or `None` if no high bit exists.
    pub fn scan_backward(self, bit_map: &BitMap) -> (r: Option<usize>)
        ensures
            match r {
                Some(steps) => {
                    &&& steps <= self.index()
                    &&& bit_map.is_high(self.index() - steps)
                    &&& forall|j: int| self.index() - steps < j <= self.index() ==> !#[trigger] bit_map.is_high(j)
                },
                None => forall|j: int| 0 <= j <= self.index() ==> !#[trigger] bit_map.is_high(j),
            },
    {
        proof {
            use_type_invariant(&self);
        }
        let ghost index = self.index() as int;
        let len = bit_map.buf.len();
        if len == 0 {
            return None;
        }
        let mut k: usize;
        let mut top: usize;
        let mut steps: usize;
        if self.chunk_index < len {
            k = self.chunk_index;
            top = self.bit_index;
            steps = 0;
        } else {
            // Beyond the buffer every bit is low: start at the last bit of the
            // last chunk.
            k = len - 1;
            top = 63;
            steps = (self.chunk_index - len) * 64 + self.bit_index + 1;
        }
        loop
            invariant
                len == bit_map@.len(),
                k < len,
                top < 64,
                index == self.index(),
                index <= usize::MAX,
                steps + k * 64 + top == index,
                forall|j: int| k * 64 + top < j <= index ==> !#[trigger] bit_map.is_high(j),
            decreases k,
        {
            let chunk = bit_map.buf.as_slice()[k];
            let current = chunk << ((63 - top) as u64);
            proof {
                lemma_top_scan(chunk, top as u64);
            }
            if current != 0 {
                let lz = current.leading_zeros() as usize;
                proof {
                    let l = lz as int;
                    assert(l == u64_leading_zeros(current));
                    assert(steps + lz <= index);
                    lemma_decompose(k as int, top - l);
                    assert forall|j: int| index - (steps + lz) < j <= index implies !#[trigger] bit_map.is_high(j) by {
                        if j <= k * 64 + top {
                            lemma_decompose(k as int, j - k * 64);
                        }
                    }
                }
                return Some(steps + lz);
            }
            if k == 0 {
                proof {
                    assert forall|j: int| 0 <= j <= index implies !#[trigger] bit_map.is_high(j) by {
                        if j <= top {
                            lemma_decompose(0, j);
                        }
                    }
                }
                return None;
            }
            proof {
                assert(steps + top + 1 <= index);
                assert forall|j: int| (k - 1) * 64 + 63 < j <= index implies !#[trigger] bit_map.is_high(j) by {
                    if j <= k * 64 + top {
                        lemma_decompose(k as int, j - k * 64);
                    }
                }
            }
            steps = steps + top + 1;
            k = k - 1;
            top = 63;
        }
    }
}

/// The binary digits of `n`, most significant first, without leading zeros
/// (`0` for zero).
pub open spec fn binary(n: nat) -> Seq<u8>
    decreases n,
{
    if n < 2 {
        seq![(48 + n) as u8]
    } else {
        binary(n / 2).push((48 + n % 2) as u8)
    }
}

/// The chunks of a map in binary, each followed by a space.
pub open spec fn chunks_text(chunks: Seq<u64>) -> Seq<u8>
    decreases chunks.len(),
{
    if chunks.len() == 0 {
        Seq::empty()
    } else {
        chunks_text(chunks.drop_last()) + binary(chunks.last() as nat) + seq![32u8]
    }
}

/// Append the binary digits of `n` to `out`.
fn push_binary(out: &mut Vec<u8>, n: u64)
    ensures
        final(out)@ == old(out)@ + binary(n as nat),
    decreases n,
{
    if n < 2 {
        out.push(48u8 + n as u8);
        assert(final(out)@ =~= old(out)@ + binary(n as nat));
    } else {
        push_binary(out, n / 2);
        out.push(48u8 + (n % 2) as u8);
        assert(final(out)@ =~= old(out)@ + binary(n as nat));
    }
}

/// A growable bit map with one bit per index.
pub struct BitMap {
    buf: Unique<BitChunk>,
}

impl View for BitMap {
    type V = Seq<u64>;

    /// The chunks of the map, lowest index first.
    closed spec fn view(&self) -> Seq<u64> {
        self.buf@
    }
}

impl BitMap {
    /// The minimum size of the bitvec (in chunks)
    pub const MIN_CAPACITY: usize = 16;

    /// Whether bit `i` is high.
    pub open spec fn is_high(&self, i: int) -> bool {
        bit_high(self@, i)
    }

    /// The indices of the high bits.
    pub open spec fn high_bits(&self) -> Set<int> {
        Set::new(|i: int| self.is_high(i))
    }

    pub open spec fn chunk_in_bounds_spec(&self, chunk_index: usize) -> bool {
        chunk_index < self@.len()
    }

    /// An empty map: every bit is low.
    pub fn new() -> (r: Self)
        ensures
            r@.len() == 0,
            r.high_bits() == Set::<int>::empty(),
            forall|i: int| !#[trigger] r.is_high(i),
    {
        let r = BitMap { buf: Unique::empty_slice() };
        assert(r.high_bits() =~= Set::<int>::empty());
        r
    }

    /// Acquire a [`BitHandle`] to the bit at bit-index `index`.
    pub fn get(&self, index: usize) -> (r: BitHandle)
        ensures
            r.index() == index,
    {
        BitHandle::new(index)
    }

    /// Set the bit at `index` to `1`, allocating extra space if it does not
    /// fit in the current buffer (see [`BitMap::grow`]).
    pub fn set_high(&mut self, index: usize)
        ensures
            final(self).high_bits() == old(self).high_bits().insert(index as int),
            final(self).is_high(index as int),
            forall|i: int| i != index ==> #[trigger] final(self).is_high(i) == old(self).is_high(i),
            final(self)@.len() == if (index / 64) < old(self)@.len() {
                old(self)@.len()
            } else {
                grown_len((index / 64) as nat)
            },
    {
        self.get(index).set_high(self);
        assert(self.high_bits() =~= old(self).high_bits().insert(index as int));
    }

    /// Set the bit at `index` to `0`, allocating extra space if it does not
    /// fit in the current buffer (see [`BitMap::grow`]).
    pub fn set_low(&mut self, index: usize)
        ensures
            final(self).high_bits() == old(self).high_bits().remove(index as int),
            !final(self).is_high(index as int),
            forall|i: int| i != index ==> #[trigger] final(self).is_high(i) == old(self).is_high(i),
            final(self)@.len() == if (index / 64) < old(self)@.len() {
                old(self)@.len()
            } else {
                grown_len((index / 64) as nat)
            },
    {
        self.get(index).set_low(self);
        assert(self.high_bits() =~= old(self).high_bits().remove(index as int));
    }

    /// Check if the chunk at `chunk_index` is within bounds
    pub fn chunk_in_bounds(&self, chunk_index: usize) -> (r: bool)
        ensures
            r == self.chunk_in_bounds_spec(chunk_index),
    {
        self.buf.len() > chunk_index
    }

    /// The debug text of the map: every chunk in binary, each followed by a
    /// space.
    pub fn debug_text(&self) -> (r: Vec<u8>)
        ensures
            r@ == chunks_text(self@),
    {
        let mut out: Vec<u8> = Vec::new();
        let chunks = self.buf.as_slice();
        let mut i: usize = 0;
        while i < chunks.len()
            invariant
                i <= chunks@.len(),
                chunks@ == self@,
                out@ == chunks_text(chunks@.take(i as int)),
            decreases chunks@.len() - i,
        {
            push_binary(&mut out, chunks[i]);
            out.push(32u8);
            proof {
                let t = chunks@.take(i + 1);
                assert(t.drop_last() =~= chunks@.take(i as int));
                assert(t.last() == chunks@[i as int]);
                assert(out@ =~= chunks_text(t));
            }
            i = i + 1;
        }
        proof {
            assert(chunks@.take(chunks@.len() as int) =~= chunks@);
        }
        out
    }

    fn set_chunk(&mut self, chunk_index: usize, value: u64)
        requires
            chunk_index < old(self)@.len(),
        ensures
            final(self)@ == old(self)@.update(chunk_index as int, value),
    {
        let slice = self.buf.as_mut_slice();
        slice[chunk_index] = value;
    }

    /// Grow this bit map to fit a chunk at a certain index (this is a chunk,
    /// not a bit). The bit map grows eagerly to the next power of two chunks,
    /// and to at least [`BitMap::MIN_CAPACITY`] chunks.
    pub fn grow(&mut self, to_fit_chunk_at: usize)
        requires
            old(self).chunk_in_bounds_spec(to_fit_chunk_at)
                || slice_layout_spec::<u64>(grown_len(to_fit_chunk_at as nat) as int) is Some,
        ensures
            forall|i: int| #[trigger] final(self).is_high(i) == old(self).is_high(i),
            final(self).high_bits() == old(self).high_bits(),
            final(self)@.len() == if old(self).chunk_in_bounds_spec(to_fit_chunk_at) {
                old(self)@.len()
            } else {
                grown_len(to_fit_chunk_at as nat)
            },
            final(self).chunk_in_bounds_spec(to_fit_chunk_at),
    {
        let chunk_index = to_fit_chunk_at;
        // We can only grow, so we know that this is definitely true
        if self.chunk_in_bounds(chunk_index) {
            return;
        }
        proof {
            lemma_fitting_growth_is_small(chunk_index as nat);
        }
        let e = log2ceil(chunk_index as u64 + 1);
        proof {
            lemma_grow_exponent(chunk_index, e);
        }
        let p: usize = 1usize << e;
        let sz: usize = if p < Self::MIN_CAPACITY { Self::MIN_CAPACITY } else { p };
        let ghost old_buf = self.buf@;
        self.buf.grow(sz);
        proof {
            assert forall|i: int| #[trigger] self.is_high(i) == old(self).is_high(i) by {
                if 0 <= i && i / 64 < old_buf.len() {
                    assert(self.buf@[i / 64] == self.buf@.subrange(0, old_buf.len() as int)[i / 64]);
                } else if 0 <= i && i / 64 < self.buf@.len() {
                    assert(self.buf@[i / 64] == 0);
                    lemma_zero_bits((i % 64) as u64);
                }
            }
            assert(self.high_bits() =~= old(self).high_bits());
        }
    }
}

/// Setting a low bit high and then low again gives back the same set of
/// high bits: `after_set` is what [`BitMap::set_high`] leaves of `before`,
/// `after_clear` what [`BitMap::set_low`] then leaves of `after_set`.
pub proof fn lemma_set_low_undoes_set_high(before: BitMap, after_set: BitMap, after_clear: BitMap, index: int)
    requires
        !before.is_high(index),
        after_set.high_bits() == before.high_bits().insert(index),
        after_clear.high_bits() == after_set.high_bits().remove(index),
    ensures
        after_clear.high_bits() == before.high_bits(),
        forall|i: int| #[trigger] after_clear.is_high(i) == before.is_high(i),
{
    assert(before.high_bits().insert(index).remove(index) =~= before.high_bits());
    assert forall|i: int| #[trigger] after_clear.is_high(i) == before.is_high(i) by {
        assert(after_clear.high_bits().contains(i) == before.high_bits().contains(i));
    }
}

} // verus!
