//! The bookkeeping of a tracing allocator.
//!
//! Every allocation made through [`TracingAlloc`] is preceded by a
//! [`TracingAllocHeader`] that records its requested size, and the address of
//! its first byte is marked high in a [`BitMap`] (indexed from the arena's
//! lowest address). A pointer anywhere into an allocation is resolved by
//! scanning the bit map backwards to the nearest allocation start and checking
//! the size in that allocation's header.
//!
//! Reading memory (headers, words of an allocation) is left to the caller:
//! the functions here say which addresses to read and decide on the values
//! that were read.
use vstd::prelude::*;

verus! {

use vstd::layout::valid_layout;
use vstd::arithmetic::power::pow;
use vstd::arithmetic::power2::{pow2, lemma_pow2, lemma_pow2_adds, lemma_pow2_strictly_increases, is_pow2_equiv};
use crate::heap::bitvec::BitMap;
use crate::util::num::{round_up, round_up_spec};

/// The size of a [`TracingAllocHeader`] in memory: two machine words.
pub const HEADER_SIZE: usize = 16;

/// The size (and alignment) of a pointer-sized word.
pub const WORD_SIZE: usize = 8;

/// Identifies one allocation: where it is and how big it is.
#[derive(Clone, Copy, Debug, PartialEq, Eq, Hash, Structural)]
pub struct AllocId {
    /// Where is this allocation?
    pub ptr: usize,
    /// How big is it?
    pub size: usize,
}

/// The aligned words of an allocation that may hold pointers: the address of
/// the first aligned word and the number of aligned words that lie wholly
/// inside the allocation from there on, or `None` when no aligned address
/// lies inside the allocation.
pub open spec fn scan_window_spec(id: AllocId) -> Option<(usize, usize)> {
    let delta = round_up_spec(id.ptr as nat, WORD_SIZE as nat) - id.ptr;
    if delta >= id.size {
        None
    } else {
        Some(((id.ptr + delta) as usize, ((id.size - delta) / WORD_SIZE as int) as usize))
    }
}

/// Whether the word at `w` is word-aligned and lies wholly inside the
/// allocation `id`.
pub open spec fn aligned_word_inside(id: AllocId, w: int) -> bool {
    &&& w % WORD_SIZE as int == 0
    &&& id.ptr <= w
    &&& w + WORD_SIZE <= id.ptr + id.size
}

/// The pointer that the word `w`, stored at `address`, stands for: the
/// allocation it points into, given the size read from the header of the
/// nearest allocation start below it.
pub open spec fn word_pointer<A: FlatAllocator>(
    global: TracingAlloc<A>,
    w: usize,
    header_size: Option<usize>,
    address: int,
) -> Option<PtrMeta> {
    match (global.find_steps_spec(w as int), header_size) {
        (Some(s), Some(h)) => if s < h {
            Some(PtrMeta { id: AllocId { ptr: (w - s) as usize, size: h }, address: address as usize })
        } else {
            None
        },
        _ => None,
    }
}

/// The pointers among `words`, read one word apart from `start` on, in the
/// order they were read.
pub open spec fn pointers_in_words<A: FlatAllocator>(
    global: TracingAlloc<A>,
    start: int,
    words: Seq<usize>,
    header_sizes: Seq<Option<usize>>,
) -> Seq<PtrMeta>
    decreases words.len(),
{
    if words.len() == 0 {
        Seq::empty()
    } else {
        let n = words.len() - 1;
        let prev = pointers_in_words(global, start, words.take(n), header_sizes.take(n));
        match word_pointer(global, words[n], header_sizes[n], start + WORD_SIZE * n) {
            Some(p) => prev.push(p),
            None => prev,
        }
    }
}

/// The header address to read for the word `w`: below the nearest
/// allocation start, if there is one.
pub open spec fn header_addr_for_word<A: FlatAllocator>(global: TracingAlloc<A>, w: usize) -> Option<usize> {
    match global.find_steps_spec(w as int) {
        Some(s) => Some((w - s - HEADER_SIZE) as usize),
        None => None,
    }
}

/// An aligned address not below `ptr` is not below the first aligned
/// address at or above `ptr`.
proof fn lemma_aligned_not_below(ptr: int, start: int, w: int)
    requires
        start % 8 == 0,
        ptr <= start < ptr + 8,
        w % 8 == 0,
        ptr <= w,
    ensures
        start <= w,
{
    vstd::arithmetic::div_mod::lemma_fundamental_div_mod(start, 8);
    vstd::arithmetic::div_mod::lemma_fundamental_div_mod(w, 8);
}

/// The aligned words inside the allocation `ptr..ptr + size` are those
/// `count` words one apart from `start` on.
proof fn lemma_window_word(ptr: int, size: int, start: int, count: int, w: int)
    requires
        start % 8 == 0,
        ptr <= start < ptr + 8,
        start - ptr < size,
        count == (size - (start - ptr)) / 8,
    ensures
        (w % 8 == 0 && ptr <= w && w + 8 <= ptr + size)
            <==> (start <= w < start + 8 * count && (w - start) % 8 == 0),
{
    vstd::arithmetic::div_mod::lemma_fundamental_div_mod(start, 8);
    vstd::arithmetic::div_mod::lemma_fundamental_div_mod(w, 8);
    vstd::arithmetic::div_mod::lemma_fundamental_div_mod(w - start, 8);
    vstd::arithmetic::div_mod::lemma_fundamental_div_mod(size - (start - ptr), 8);
    if w % 8 == 0 && ptr <= w {
        lemma_aligned_not_below(ptr, start, w);
    }
}

/// Whether `address` is one of the `len` word addresses one word apart
/// from `start` on.
pub open spec fn among_words(start: int, len: int, address: int) -> bool {
    start <= address < start + WORD_SIZE * len && (address - start) % WORD_SIZE as int == 0
}

/// Every pointer found among `words` is stored at one of the words' own
/// addresses, one word apart from `start` on.
proof fn lemma_pointer_addresses<A: FlatAllocator>(
    global: TracingAlloc<A>,
    start: int,
    words: Seq<usize>,
    header_sizes: Seq<Option<usize>>,
)
    requires
        start >= 0,
        start + WORD_SIZE * words.len() <= usize::MAX,
    ensures
        forall|i: int| 0 <= i < pointers_in_words(global, start, words, header_sizes).len() ==> among_words(
            start,
            words.len() as int,
            (#[trigger] pointers_in_words(global, start, words, header_sizes)[i]).address as int,
        ),
    decreases words.len(),
{
    if words.len() > 0 {
        let n = words.len() - 1;
        lemma_pointer_addresses(global, start, words.take(n), header_sizes.take(n));
        let prev = pointers_in_words(global, start, words.take(n), header_sizes.take(n));
        let all = pointers_in_words(global, start, words, header_sizes);
        assert forall|i: int| 0 <= i < all.len() implies among_words(start, words.len() as int, (#[trigger] all[i]).address as int) by {
            if i < prev.len() {
                assert(all[i] == prev[i]);
                assert(among_words(start, n as int, prev[i].address as int));
            } else {
                assert(all[i].address == (start + WORD_SIZE * n) as usize);
                vstd::arithmetic::div_mod::lemma_mod_multiples_basic(n as int, 8);
            }
        }
    } else {
        assert(pointers_in_words(global, start, words, header_sizes).len() == 0);
    }
}

/// What the word at index `i` of `words` (read at `start + 8 * i`) stands
/// for, given the header size read for it.
pub open spec fn pointer_at<A: FlatAllocator>(
    global: TracingAlloc<A>,
    start: int,
    words: Seq<usize>,
    header_sizes: Seq<Option<usize>>,
    i: int,
) -> Option<PtrMeta> {
    word_pointer(global, words[i], header_sizes[i], start + WORD_SIZE * i)
}

/// `found` reports the pointers among `words` exactly: every word that
/// points into an allocation is reported, whatever the words around it
/// point to; everything reported is what the word at its address stands
/// for; and the reports come in the order of their addresses, each once.
pub open spec fn reports_every_pointer<A: FlatAllocator>(
    global: TracingAlloc<A>,
    start: int,
    words: Seq<usize>,
    header_sizes: Seq<Option<usize>>,
    found: Seq<PtrMeta>,
) -> bool {
    &&& forall|i: int| 0 <= i < words.len() && (#[trigger] pointer_at(global, start, words, header_sizes, i)) is Some
        ==> found.contains(pointer_at(global, start, words, header_sizes, i)->0)
    &&& forall|k: int| 0 <= k < found.len() ==> among_words(start, words.len() as int, (#[trigger] found[k]).address as int)
        && pointer_at(global, start, words, header_sizes, (found[k].address - start) / WORD_SIZE as int) == Some(found[k])
    &&& forall|k1: int, k2: int| 0 <= k1 < k2 < found.len() ==> (#[trigger] found[k1]).address < (#[trigger] found[k2]).address
}

/// The pointers found among the words of an allocation are exactly the
/// words that point into an allocation, each reported at its own address,
/// in address order: a word is reported even when the word before it points
/// into the same allocation.
pub proof fn lemma_every_pointer_reported<A: FlatAllocator>(
    global: TracingAlloc<A>,
    start: int,
    words: Seq<usize>,
    header_sizes: Seq<Option<usize>>,
)
    requires
        start >= 0,
        start + WORD_SIZE * words.len() <= usize::MAX,
        words.len() == header_sizes.len(),
    ensures
        reports_every_pointer(global, start, words, header_sizes, pointers_in_words(global, start, words, header_sizes)),
    decreases words.len(),
{
    let all = pointers_in_words(global, start, words, header_sizes);
    if words.len() == 0 {
        assert(all.len() == 0);
    } else {
        let n = words.len() - 1;
        let ws = words.take(n);
        let hs = header_sizes.take(n);
        lemma_every_pointer_reported(global, start, ws, hs);
        let prev = pointers_in_words(global, start, ws, hs);
        assert forall|i: int| 0 <= i < n implies #[trigger] pointer_at(global, start, ws, hs, i)
            == pointer_at(global, start, words, header_sizes, i) by {
            assert(ws[i] == words[i]);
            assert(hs[i] == header_sizes[i]);
        }
        let last = pointer_at(global, start, words, header_sizes, n as int);
        assert(last == word_pointer(global, words[n], header_sizes[n], start + WORD_SIZE * n));
        assert(all == match last {
            Some(p) => prev.push(p),
            None => prev,
        });
        assert forall|i: int| 0 <= i < words.len() && (#[trigger] pointer_at(global, start, words, header_sizes, i)) is Some
            implies all.contains(pointer_at(global, start, words, header_sizes, i)->0) by {
            if i < n {
                assert(pointer_at(global, start, ws, hs, i) is Some);
                let x = pointer_at(global, start, ws, hs, i)->0;
                assert(prev.contains(x));
                let k = choose|k: int| 0 <= k < prev.len() && prev[k] == x;
                assert(all[k] == prev[k]);
            } else {
                assert(all[prev.len() as int] == last->0);
            }
        }
        assert forall|k: int| 0 <= k < all.len() implies among_words(start, words.len() as int, (#[trigger] all[k]).address as int)
            && pointer_at(global, start, words, header_sizes, (all[k].address - start) / WORD_SIZE as int) == Some(all[k]) by {
            if k < prev.len() {
                assert(all[k] == prev[k]);
                assert(among_words(start, n as int, prev[k].address as int));
                let i = (prev[k].address - start) / WORD_SIZE as int;
                vstd::arithmetic::div_mod::lemma_fundamental_div_mod(prev[k].address - start, 8);
                assert(0 <= i < n);
                assert(pointer_at(global, start, ws, hs, i) == pointer_at(global, start, words, header_sizes, i));
            } else {
                assert(all[k] == last->0);
                assert(all[k].address == (start + WORD_SIZE * n) as usize);
                assert(all[k].address - start == 8 * n);
                vstd::arithmetic::div_mod::lemma_mod_multiples_basic(n as int, 8);
                vstd::arithmetic::div_mod::lemma_div_multiples_vanish(n as int, 8);
            }
        }
        assert forall|k1: int, k2: int| 0 <= k1 < k2 < all.len() implies (#[trigger] all[k1]).address < (#[trigger] all[k2]).address by {
            if k2 < prev.len() {
                assert(all[k1] == prev[k1] && all[k2] == prev[k2]);
            } else {
                assert(all[k1] == prev[k1]);
                assert(among_words(start, n as int, prev[k1].address as int));
                assert(all[k2].address == (start + WORD_SIZE * n) as usize);
            }
        }
    }
}

impl AllocId {
    /// The allocation that holds a `T` at address `ptr`.
    pub fn from_sized<T>(ptr: usize) -> (r: Self)
        ensures
            r.ptr == ptr,
            r.size == vstd::layout::size_of::<T>(),
    {
        AllocId { ptr, size: core::mem::size_of::<T>() }
    }

    /// Where to read the words of this allocation that may be pointers: the
    /// first word-aligned address in it and the number of words to read.
    pub fn scan_window(&self) -> (r: Option<(usize, usize)>)
        requires
            self.ptr + WORD_SIZE - 1 <= usize::MAX,
        ensures
            r == scan_window_spec(*self),
            r matches Some((start, count)) ==> forall|w: int| #[trigger] aligned_word_inside(*self, w)
                <==> (start <= w < start + WORD_SIZE * count && (w - start) % WORD_SIZE as int == 0),
            r is None ==> forall|w: int| !#[trigger] aligned_word_inside(*self, w),
    {
        let aligned = round_up(self.ptr, WORD_SIZE);
        let delta = aligned - self.ptr;
        proof {
            crate::util::num::lemma_round_up_properties(self.ptr as nat, WORD_SIZE as nat);
            assert forall|w: int| #[trigger] aligned_word_inside(*self, w) implies w >= aligned by {
                lemma_aligned_not_below(self.ptr as int, aligned as int, w);
            }
        }
        if delta >= self.size {
            return None;
        }
        let count = (self.size - delta) / WORD_SIZE;
        proof {
            assert forall|w: int| #[trigger] aligned_word_inside(*self, w)
                <==> (aligned <= w < aligned + WORD_SIZE * count && (w - aligned) % WORD_SIZE as int == 0) by {
                lemma_window_word(self.ptr as int, self.size as int, aligned as int, count as int, w);
            }
        }
        Some((self.ptr + delta, count))
    }

    /// Find the pointers among the words of this allocation, which were
    /// read one word apart from the start of [`AllocId::scan_window`] on:
    /// exactly the aligned words that lie inside the allocation, as many as
    /// the window counts.
    /// `header_sizes[i]` is the size read from the header at the address
    /// that [`TracingAlloc::header_addrs`] gave for `words[i]` (or `None`
    /// where it gave none).
    pub fn find_pointers_unchecked<A: FlatAllocator>(
        &self,
        global: &TracingAlloc<A>,
        method: FindPointerMethod,
        words: &Vec<usize>,
        header_sizes: &Vec<Option<usize>>,
    ) -> (r: FindPointersUncheckedResult)
        requires
            self.ptr + WORD_SIZE - 1 <= usize::MAX,
            scan_window_spec(*self) matches Some((_, count)) ==> words.len() == count,
            words.len() == header_sizes.len(),
            scan_window_spec(*self) matches Some((start, _)) ==> start + WORD_SIZE * words.len() <= usize::MAX,
        ensures
            r@ == match scan_window_spec(*self) {
                Some((start, _)) => Some(pointers_in_words(*global, start as int, words@, header_sizes@)),
                None => None::<Seq<PtrMeta>>,
            },
            r@ matches Some(found) ==> forall|i: int| 0 <= i < found.len()
                ==> aligned_word_inside(*self, (#[trigger] found[i]).address as int),
            r@ matches Some(found) ==> scan_window_spec(*self) matches Some((start, _))
                && reports_every_pointer(*global, start as int, words@, header_sizes@, found),
    {
        let window = self.scan_window();
        proof {
            if let Some((start, count)) = window {
                lemma_every_pointer_reported(*global, start as int, words@, header_sizes@);
                lemma_pointer_addresses(*global, start as int, words@, header_sizes@);
                let found = pointers_in_words(*global, start as int, words@, header_sizes@);
                assert forall|i: int| 0 <= i < found.len()
                    implies aligned_word_inside(*self, (#[trigger] found[i]).address as int) by {
                    assert(among_words(start as int, count as int, found[i].address as int));
                }
            }
        }
        match window {
            None => FindPointersUncheckedResult(None),
            Some((start, _count)) => {
                let mut found: Vec<PtrMeta> = Vec::new();
                let mut i: usize = 0;
                while i < words.len()
                    invariant
                        i <= words.len(),
                        words.len() == header_sizes.len(),
                        start + WORD_SIZE * words.len() <= usize::MAX,
                        found@ == pointers_in_words(*global, start as int, words@.take(i as int), header_sizes@.take(i as int)),
                    decreases words.len() - i,
                {
                    let w = words[i];
                    let address = start + WORD_SIZE * i;
                    let steps = global.find_steps(w);
                    let found_one = match (steps, header_sizes[i]) {
                        (Some(s), Some(h)) => TracingAlloc::<A>::alloc_id_from_ptr_steps(w, Some(s), h),
                        _ => None,
                    };
                    proof {
                        let ws = words@.take(i + 1);
                        let hs = header_sizes@.take(i + 1);
                        assert(ws.take(i as int) =~= words@.take(i as int));
                        assert(hs.take(i as int) =~= header_sizes@.take(i as int));
                        assert(ws[i as int] == w);
                        assert(hs[i as int] == header_sizes@[i as int]);
                    }
                    match found_one {
                        Some(id) => {
                            found.push(PtrMeta { id, address });
                        },
                        None => {},
                    }
                    i = i + 1;
                }
                proof {
                    assert(words@.take(words.len() as int) =~= words@);
                    assert(header_sizes@.take(words.len() as int) =~= header_sizes@);
                }
                FindPointersUncheckedResult(Some(found))
            },
        }
    }
}

/// A pointer found in memory: the allocation it points into and where the
/// pointer itself is stored.
#[derive(Clone, Copy, Debug, PartialEq, Eq, Structural)]
pub struct PtrMeta {
    /// What allocation does the pointer point to?
    pub id: AllocId,
    /// Where is this pointer?
    pub address: usize,
}

/// A lowercase hexadecimal digit.
pub open spec fn hex_digit(d: u8) -> u8 {
    if d < 10 { (48 + d) as u8 } else { (97 + d - 10) as u8 }
}

/// A byte in lowercase hexadecimal, without leading zeros.
pub open spec fn hex_byte(b: u8) -> Seq<u8> {
    if b < 16 {
        seq![hex_digit(b)]
    } else {
        seq![hex_digit(b / 16), hex_digit(b % 16)]
    }
}

/// The bytes of `s` in hexadecimal, separated by single spaces.
pub open spec fn hex_body(s: Seq<u8>) -> Seq<u8>
    decreases s.len(),
{
    if s.len() == 0 {
        Seq::empty()
    } else if s.len() == 1 {
        hex_byte(s[0])
    } else {
        hex_body(s.drop_last()) + seq![32u8] + hex_byte(s.last())
    }
}

/// The debug text of a hex dump of `s`: its bytes in hexadecimal between
/// square brackets, for example `[0 ff 1a]`.
pub open spec fn hex_dump_text(s: Seq<u8>) -> Seq<u8> {
    seq![91u8] + hex_body(s) + seq![93u8]
}

/// The bytes of an allocation, as read from memory.
#[derive(Clone, PartialEq)]
pub struct HexDump {
    buf: Vec<u8>,
}

impl HexDump {
    pub closed spec fn bytes(&self) -> Seq<u8> {
        self.buf@
    }

    pub fn new(buf: Vec<u8>) -> (r: Self)
        ensures
            r.bytes() == buf@,
    {
        Self { buf }
    }

    /// The dumped bytes.
    pub fn as_slice(&self) -> (r: &[u8])
        ensures
            r@ == self.bytes(),
    {
        self.buf.as_slice()
    }

    /// The debug text of this dump: each byte in lowercase hexadecimal,
    /// separated by spaces, between square brackets.
    pub fn debug_text(&self) -> (r: Vec<u8>)
        ensures
            r@ == hex_dump_text(self.bytes()),
    {
        let mut out: Vec<u8> = Vec::new();
        out.push(91u8);
        let mut i: usize = 0;
        while i < self.buf.len()
            invariant
                i <= self.buf@.len(),
                out@ == seq![91u8] + hex_body(self.buf@.take(i as int)),
            decreases self.buf@.len() - i,
        {
            let b = self.buf[i];
            let ghost before = out@;
            if i > 0 {
                out.push(32u8);
            }
            let hi = b / 16;
            let lo = b % 16;
            if b >= 16 {
                out.push(if hi < 10 { 48u8 + hi } else { 97u8 + hi - 10 });
            }
            out.push(if lo < 10 { 48u8 + lo } else { 97u8 + lo - 10 });
            proof {
                let t = self.buf@.take(i + 1);
                assert(t.drop_last() =~= self.buf@.take(i as int));
                assert(t.last() == b);
                if i == 0 {
                    assert(hex_body(t) == hex_byte(b));
                    assert(out@ =~= seq![91u8] + hex_body(t));
                } else {
                    assert(hex_body(t) == hex_body(self.buf@.take(i as int)) + seq![32u8] + hex_byte(b));
                    assert(out@ =~= seq![91u8] + hex_body(t));
                }
            }
            i = i + 1;
        }
        out.push(93u8);
        proof {
            assert(self.buf@.take(self.buf@.len() as int) =~= self.buf@);
        }
        out
    }
}

/// The size and alignment of an allocation request.
#[derive(Clone, Copy, Debug, PartialEq, Eq, Structural)]
pub struct AllocLayout {
    pub size: usize,
    pub align: usize,
}

/// How to look for pointers inside an allocation.
#[derive(Clone, Copy, PartialEq, Eq, Structural)]
pub enum FindPointerMethod {
    /// Find pointers that are aligned to `align_of::<usize>()` only, only
    /// searching on the heap
    AlignedHeapOnly,
}

/// The pointers found in one allocation, when the allocation holds at least
/// one aligned word.
pub struct FindPointersUncheckedResult(pub Option<Vec<PtrMeta>>);

impl View for FindPointersUncheckedResult {
    type V = Option<Seq<PtrMeta>>;

    open spec fn view(&self) -> Option<Seq<PtrMeta>> {
        match self.0 {
            Some(v) => Some(v@),
            None => None,
        }
    }
}

impl FindPointersUncheckedResult {
    /// Convert this to a `Vec<PtrMeta>`.
    pub fn to_vec(self) -> (r: Vec<PtrMeta>)
        ensures
            r@ == match self@ {
                Some(v) => v,
                None => Seq::<PtrMeta>::empty(),
            },
    {
        match self.0 {
            Some(v) => v,
            None => Vec::new(),
        }
    }
}

/// Metadata about an allocation (currently empty).
pub struct AllocMeta {}

/// An allocator whose arena starts at a fixed lowest address.
pub trait FlatAllocator {
    /// Returns the minimum (never changing) vaddr that is valid for reads in
    /// this allocator's arena
    fn min_vaddr(&self) -> usize;
}

/// Additional metadata that every allocation by [`TracingAlloc`] has
pub struct TracingAllocHeader {
    /// The exact requested size of this allocation
    size: usize,
    /// (Currently unused) metadata about this allocation; 0 stands for none.
    metadata: usize,
}

/// How many bytes precede an allocation's data: at least a header, and at
/// least the alignment so that the data stays aligned.
pub open spec fn header_size_spec(align: usize) -> usize {
    if HEADER_SIZE >= align { HEADER_SIZE } else { align }
}

/// Whether a request of `layout`, with its header in front, is still a valid
/// layout.
pub open spec fn fits_with_header(layout: AllocLayout) -> bool {
    &&& layout.size + header_size_spec(layout.align) <= usize::MAX
    &&& valid_layout((layout.size + header_size_spec(layout.align)) as usize, layout.align)
}

impl TracingAllocHeader {
    pub closed spec fn size_spec(&self) -> usize {
        self.size
    }

    pub closed spec fn metadata_spec(&self) -> usize {
        self.metadata
    }

    /// A header recording `size` requested bytes and no metadata.
    pub fn for_size(size: usize) -> (r: Self)
        ensures
            r.size_spec() == size,
            r.metadata_spec() == 0,
    {
        TracingAllocHeader { size, metadata: 0 }
    }

    /// The exact requested size of the allocation.
    pub fn size(&self) -> (r: usize)
        ensures
            r == self.size_spec(),
    {
        self.size
    }

    /// The metadata word (0 when there is none).
    pub fn metadata(&self) -> (r: usize)
        ensures
            r == self.metadata_spec(),
    {
        self.metadata
    }

    /// Get the layout for a given allocation, as well as the size of the header
    /// This will let you determine at what offset the returned pointer should
    /// be, the layout of a `TracingAlloc` allocation currently looks like this
    ///
    /// ```plaintext
    /// +--------------------+
    /// | allocator header   |
    /// +--------------------+
    /// | padding...         | header_size bytes
    /// | TracingAllocHeader |
    /// +--------------------+
    /// | actual requested   | tracing_alloc_header.size bytes
    /// | size               |
    /// +--------------------+
    /// | allocator stuff    |
    /// .                    .
    /// ```
    pub fn layout_with_header(layout: AllocLayout) -> (r: (usize, AllocLayout))
        requires
            fits_with_header(layout),
        ensures
            r.0 == header_size_spec(layout.align),
            r.1 == (AllocLayout { size: (layout.size + r.0) as usize, align: layout.align }),
            valid_layout(r.1.size, r.1.align),
    {
        let header_size = if HEADER_SIZE >= layout.align { HEADER_SIZE } else { layout.align };
        let layout = AllocLayout { size: layout.size + header_size, align: layout.align };
        (header_size, layout)
    }

    /// A header with size 0 and no metadata.
    pub fn empty() -> (r: Self)
        ensures
            r.size_spec() == 0,
            r.metadata_spec() == 0,
    {
        TracingAllocHeader { size: 0, metadata: 0 }
    }
}

/// A power of two divides every larger power of two.
proof fn lemma_pow2_divides(a: int, b: int)
    requires
        vstd::arithmetic::power2::is_pow2(a),
        vstd::arithmetic::power2::is_pow2(b),
        a <= b,
    ensures
        b % a == 0,
{
    reveal(vstd::arithmetic::power2::is_pow2);
    assert(a > 0);
    is_pow2_equiv(a);
    is_pow2_equiv(b);
    let i = choose|i: nat| pow(2, i) == a;
    let j = choose|j: nat| pow(2, j) == b;
    lemma_pow2(i);
    lemma_pow2(j);
    if i > j {
        lemma_pow2_strictly_increases(j, i);
    }
    lemma_pow2_adds(i, (j - i) as nat);
    lemma_pow2((j - i) as nat);
    assert(i + (j - i) as nat == j);
    assert(pow2(j) == pow2(i) * pow2((j - i) as nat));
    vstd::arithmetic::mul::lemma_mul_is_commutative(pow2(i) as int, pow2((j - i) as nat) as int);
    assert(b == pow2((j - i) as nat) * a);
    vstd::arithmetic::div_mod::lemma_mod_multiples_basic(pow2((j - i) as nat) as int, a);
}

/// Data placed behind a header stays aligned: when the backing allocation
/// is aligned to a power of two `align`, so is the data address.
pub proof fn lemma_data_stays_aligned(base: int, align: int)
    requires
        vstd::arithmetic::power2::is_pow2(align),
        align <= usize::MAX,
        base % align == 0,
    ensures
        (base + header_size_spec(align as usize)) % align == 0,
{
    assert(align > 0) by {
        reveal(vstd::arithmetic::power2::is_pow2);
    }
    if align <= HEADER_SIZE {
        assert(vstd::arithmetic::power2::is_pow2(16)) by {
            reveal_with_fuel(vstd::arithmetic::power2::is_pow2, 5);
        }
        lemma_pow2_divides(align, 16);
        vstd::arithmetic::div_mod::lemma_add_mod_noop(base, 16, align);
        assert(align as usize == align);
        assert(header_size_spec(align as usize) == 16);
        vstd::arithmetic::div_mod::lemma_small_mod(0nat, align as nat);
    } else {
        vstd::arithmetic::div_mod::lemma_add_mod_noop(base, align, align);
        vstd::arithmetic::div_mod::lemma_mod_self_0(align);
        assert(align as usize == align);
        assert(header_size_spec(align as usize) == align);
        vstd::arithmetic::div_mod::lemma_small_mod(0nat, align as nat);
    }
}

/// Where the pieces of a new allocation go: its header, and the data handed
/// out to the caller.
pub struct AllocPlacement {
    /// Where the header is to be written.
    pub header_addr: usize,
    /// The header to write there.
    pub header: TracingAllocHeader,
    /// The address handed to the caller.
    pub data_addr: usize,
}

/// An allocator, which allows for GC-style tracing of allocations, from a
/// specified root. The allocator is backed by `A`, which should be an allocator
/// that uses an arena that grows linearly with the number of bytes allocated,
/// since the metadata grows linearly with `arena_size` where
/// `arena_size = max_vaddr - MIN_VADDR`.
pub struct TracingAlloc<A: FlatAllocator> {
    allocator: A,
    min_vaddr: usize,
    bit_map: BitMap,
    nr_allocations: usize,
}

impl<A: FlatAllocator> TracingAlloc<A> {
    /// Every allocation start leaves room for a header below it.
    #[verifier::type_invariant]
    spec fn starts_leave_room_for_headers(self) -> bool {
        forall|i: int| #[trigger] self.bit_map.is_high(i) ==> i + self.min_vaddr >= HEADER_SIZE
    }

    /// The allocator whose allocations are traced.
    pub closed spec fn allocator_spec(&self) -> A {
        self.allocator
    }

    /// The lowest address of the arena, read from the allocator when this
    /// tracer was made.
    pub closed spec fn min_vaddr_spec(&self) -> usize {
        self.min_vaddr
    }

    /// The number of live allocations that were counted.
    pub closed spec fn nr_allocations_spec(&self) -> usize {
        self.nr_allocations
    }

    /// Whether an allocation starts at `addr`.
    pub closed spec fn is_start(&self, addr: int) -> bool {
        addr >= self.min_vaddr && self.bit_map.is_high(addr - self.min_vaddr)
    }

    /// The addresses where registered allocations start.
    pub open spec fn starts(&self) -> Set<int> {
        Set::new(|a: int| self.is_start(a))
    }

    /// `start` is the nearest allocation start at or below `ptr`.
    pub open spec fn is_nearest_start(&self, start: int, ptr: int) -> bool {
        &&& start <= ptr
        &&& self.is_start(start)
        &&& forall|b: int| start < b <= ptr ==> !#[trigger] self.is_start(b)
    }

    /// The distance from `ptr` back to the nearest allocation start, if
    /// there is one.
    pub open spec fn find_steps_spec(&self, ptr: int) -> Option<nat> {
        if exists|a: int| self.is_nearest_start(a, ptr) {
            let a = choose|a: int| self.is_nearest_start(a, ptr);
            Some((ptr - a) as nat)
        } else {
            None
        }
    }

    /// There is only one nearest start.
    pub proof fn lemma_nearest_start_unique(&self, a1: int, a2: int, ptr: int)
        requires
            self.is_nearest_start(a1, ptr),
            self.is_nearest_start(a2, ptr),
        ensures
            a1 == a2,
    {
        if a1 < a2 {
            assert(!self.is_start(a2));
        } else if a2 < a1 {
            assert(!self.is_start(a1));
        }
    }

    /// Make a tracer for the allocations of `allocator`, with no allocation
    /// registered yet.
    pub fn new(allocator: A) -> (r: Self)
        ensures
            r.starts() == Set::<int>::empty(),
            r.allocator_spec() == allocator,
            r.nr_allocations_spec() == 0,
            forall|a: int| !#[trigger] r.is_start(a),
    {
        let min_vaddr = allocator.min_vaddr();
        let r = TracingAlloc { allocator, min_vaddr, bit_map: BitMap::new(), nr_allocations: 0 };
        assert(r.starts() =~= Set::<int>::empty());
        r
    }

    /// Return the underlying allocator
    pub fn allocator(&self) -> (r: &A)
        ensures
            *r == self.allocator_spec(),
    {
        &self.allocator
    }

    /// The lowest address of the arena.
    pub fn min_vaddr(&self) -> (r: usize)
        ensures
            r == self.min_vaddr_spec(),
    {
        self.min_vaddr
    }

    /// The number of live allocations.
    pub fn nr_allocations(&self) -> (r: usize)
        ensures
            r == self.nr_allocations_spec(),
    {
        self.nr_allocations
    }

    /// The bit map index of `ptr`: its offset from the arena's lowest
    /// address, if it is not below it.
    pub fn get_bit_map_index(&self, ptr: usize) -> (r: Option<usize>)
        ensures
            r == if ptr < self.min_vaddr_spec() {
                None::<usize>
            } else {
                Some((ptr - self.min_vaddr_spec()) as usize)
            },
    {
        if ptr < self.min_vaddr {
            return None;
        }
        Some(ptr - self.min_vaddr)
    }

    /// Scan back from `ptr` to the nearest allocation start: returns how many
    /// bytes back it is, or `None` if no allocation starts at or below `ptr`.
    pub fn find_steps(&self, ptr: usize) -> (r: Option<usize>)
        ensures
            r matches Some(steps) ==> self.find_steps_spec(ptr as int) == Some(steps as nat)
                && self.is_nearest_start(ptr - steps, ptr as int)
                && steps + HEADER_SIZE <= ptr,
            r is None <==> self.find_steps_spec(ptr as int) is None,
            r is None ==> forall|a: int| a <= ptr ==> !#[trigger] self.is_start(a),
    {
        let index = match self.get_bit_map_index(ptr) {
            Some(index) => index,
            None => {
                proof {
                    assert forall|a: int| a <= ptr implies !#[trigger] self.is_start(a) by {}
                    assert(!exists|a: int| self.is_nearest_start(a, ptr as int));
                }
                return None;
            },
        };
        let steps = self.bit_map.get(index).scan_backward(&self.bit_map);
        proof {
            use_type_invariant(self);
            let min = self.min_vaddr as int;
            match steps {
                Some(s) => {
                    let a = ptr - s;
                    assert(self.is_start(a));
                    assert forall|b: int| a < b <= ptr implies !#[trigger] self.is_start(b) by {
                        assert(!self.bit_map.is_high(b - min));
                    }
                    assert(self.is_nearest_start(a, ptr as int));
                    let c = choose|c: int| self.is_nearest_start(c, ptr as int);
                    self.lemma_nearest_start_unique(a, c, ptr as int);
                },
                None => {
                    assert forall|a: int| a <= ptr implies !#[trigger] self.is_start(a) by {
                        if a >= min {
                            assert(!self.bit_map.is_high(a - min));
                        }
                    }
                    assert(!exists|a: int| self.is_nearest_start(a, ptr as int));
                },
            }
        }
        steps
    }

    /// For each word, the address of the header to read to decide whether it
    /// points into an allocation (see [`AllocId::find_pointers_unchecked`]).
    pub fn header_addrs(&self, words: &Vec<usize>) -> (r: Vec<Option<usize>>)
        ensures
            r@.len() == words@.len(),
            forall|i: int| 0 <= i < words@.len() ==> #[trigger] r@[i] == header_addr_for_word(*self, words@[i]),
    {
        let mut out: Vec<Option<usize>> = Vec::new();
        let mut i: usize = 0;
        while i < words.len()
            invariant
                i <= words.len(),
                out@.len() == i,
                forall|j: int| 0 <= j < i ==> #[trigger] out@[j] == header_addr_for_word(*self, words@[j]),
            decreases words.len() - i,
        {
            let w = words[i];
            match self.find_steps(w) {
                Some(steps) => out.push(Some(Self::header_addr(w, steps))),
                None => out.push(None),
            }
            i = i + 1;
        }
        out
    }

    /// Where the header of the allocation found `steps` bytes below `ptr`
    /// lies.
    pub fn header_addr(ptr: usize, steps: usize) -> (r: usize)
        requires
            steps + HEADER_SIZE <= ptr,
        ensures
            r == ptr - steps - HEADER_SIZE,
    {
        ptr - steps - HEADER_SIZE
    }

    /// Decide, from the nearest start `steps` bytes below `ptr` and the
    /// requested size recorded in its header, which allocation `ptr` points
    /// into: `ptr` must lie within the requested size.
    pub fn alloc_id_from_ptr_steps(ptr: usize, steps: Option<usize>, header_size: usize) -> (r: Option<AllocId>)
        ensures
            r == match steps {
                Some(s) => if s >= header_size {
                    None::<AllocId>
                } else {
                    Some(AllocId { ptr: ptr.wrapping_sub(s), size: header_size })
                },
                None => None,
            },
    {
        match steps {
            Some(steps) => {
                let alloc_ptr = ptr.wrapping_sub(steps);
                if steps >= header_size {
                    None
                } else {
                    Some(AllocId { ptr: alloc_ptr, size: header_size })
                }
            },
            None => None,
        }
    }

    /// Record a new allocation. `base` is what the backing allocator returned
    /// for the layout [`TracingAllocHeader::layout_with_header`] gives for
    /// `layout`; the caller writes the returned header at its address and
    /// hands out the returned data address.
    pub fn register_alloc(&mut self, base: usize, layout: AllocLayout) -> (r: AllocPlacement)
        requires
            fits_with_header(layout),
            base + layout.size + header_size_spec(layout.align) <= usize::MAX,
            base + header_size_spec(layout.align) >= old(self).min_vaddr_spec(),
        ensures
            r.data_addr == base + header_size_spec(layout.align),
            r.header_addr == r.data_addr - HEADER_SIZE,
            base % layout.align == 0 ==> r.data_addr % layout.align == 0,
            r.header.size_spec() == layout.size,
            r.header.metadata_spec() == 0,
            final(self).min_vaddr_spec() == old(self).min_vaddr_spec(),
            final(self).nr_allocations_spec() == old(self).nr_allocations_spec().wrapping_add(1),
            final(self).starts() == old(self).starts().insert(r.data_addr as int),
            final(self).is_start(r.data_addr as int),
            forall|a: int| a != r.data_addr ==> #[trigger] final(self).is_start(a) == old(self).is_start(a),
    {
        proof {
            use_type_invariant(&*self);
        }
        let (header_size, _full) = TracingAllocHeader::layout_with_header(layout);
        let header_addr = base + header_size - HEADER_SIZE;
        let data = base + header_size;
        let index = data - self.min_vaddr;
        let mut bit_map = BitMap::new();
        core::mem::swap(&mut bit_map, &mut self.bit_map);
        bit_map.set_high(index);
        self.bit_map = bit_map;
        self.nr_allocations = self.nr_allocations.wrapping_add(1);
        proof {
            assert forall|a: int| a != data implies #[trigger] self.is_start(a) == old(self).is_start(a) by {
                if a >= self.min_vaddr {
                    assert(self.bit_map.is_high(a - self.min_vaddr) == old(self).bit_map.is_high(a - self.min_vaddr));
                }
            }
        }
        assert(self.starts() =~= old(self).starts().insert(data as int));
        proof {
            if base % layout.align == 0 {
                lemma_data_stays_aligned(base as int, layout.align as int);
            }
        }
        AllocPlacement { header_addr, header: TracingAllocHeader::for_size(layout.size), data_addr: data }
    }

    /// Forget the allocation at `ptr` made for `layout`. Returns the address
    /// and layout to hand back to the backing allocator.
    pub fn deregister_alloc(&mut self, ptr: usize, layout: AllocLayout) -> (r: (usize, AllocLayout))
        requires
            fits_with_header(layout),
            ptr >= old(self).min_vaddr_spec(),
            ptr >= header_size_spec(layout.align),
        ensures
            r.0 == ptr - header_size_spec(layout.align),
            r.1 == (AllocLayout { size: (layout.size + header_size_spec(layout.align)) as usize, align: layout.align }),
            final(self).min_vaddr_spec() == old(self).min_vaddr_spec(),
            final(self).nr_allocations_spec() == old(self).nr_allocations_spec().wrapping_sub(1),
            final(self).starts() == old(self).starts().remove(ptr as int),
            !final(self).is_start(ptr as int),
            forall|a: int| a != ptr ==> #[trigger] final(self).is_start(a) == old(self).is_start(a),
    {
        proof {
            use_type_invariant(&*self);
        }
        let (header_size, full) = TracingAllocHeader::layout_with_header(layout);
        let index = ptr - self.min_vaddr;
        let mut bit_map = BitMap::new();
        core::mem::swap(&mut bit_map, &mut self.bit_map);
        bit_map.set_low(index);
        self.bit_map = bit_map;
        self.nr_allocations = self.nr_allocations.wrapping_sub(1);
        proof {
            assert forall|a: int| a != ptr implies #[trigger] self.is_start(a) == old(self).is_start(a) by {
                if a >= self.min_vaddr {
                    assert(self.bit_map.is_high(a - self.min_vaddr) == old(self).bit_map.is_high(a - self.min_vaddr));
                }
            }
        }
        assert(self.starts() =~= old(self).starts().remove(ptr as int));
        (ptr - header_size, full)
    }
}

/// A pointer anywhere inside an allocation resolves to that allocation, as
/// long as no later allocation starts between the allocation's start and
/// the pointer: the scan back from the pointer stops at the allocation's
/// start, and the size in its header admits the pointer.
pub proof fn lemma_interior_pointer_resolves<A: FlatAllocator>(
    global: TracingAlloc<A>,
    start: usize,
    size: usize,
    ptr: usize,
    address: int,
)
    requires
        global.is_start(start as int),
        start <= ptr < start + size,
        forall|b: int| start < b <= ptr ==> !#[trigger] global.is_start(b),
    ensures
        global.find_steps_spec(ptr as int) == Some((ptr - start) as nat),
        word_pointer(global, ptr, Some(size), address)
            == Some(PtrMeta { id: AllocId { ptr: start, size }, address: address as usize }),
{
    assert(global.is_nearest_start(start as int, ptr as int));
    let c = choose|c: int| global.is_nearest_start(c, ptr as int);
    global.lemma_nearest_start_unique(start as int, c, ptr as int);
}

/// Forgetting an allocation undoes registering it: `registered` is what
/// [`TracingAlloc::register_alloc`] leaves of `before` for an allocation whose
/// data starts at `data`, and `after` what [`TracingAlloc::deregister_alloc`]
/// then leaves of `registered` for the same address. The allocation starts
/// and the count of allocations are what they were (the count wraps around,
/// as the counter does), provided nothing started at `data` before.
pub proof fn lemma_deregister_undoes_register<A: FlatAllocator>(
    before: TracingAlloc<A>,
    registered: TracingAlloc<A>,
    after: TracingAlloc<A>,
    data: int,
)
    requires
        !before.is_start(data),
        registered.starts() == before.starts().insert(data),
        registered.nr_allocations_spec() == before.nr_allocations_spec().wrapping_add(1),
        after.starts() == registered.starts().remove(data),
        after.nr_allocations_spec() == registered.nr_allocations_spec().wrapping_sub(1),
    ensures
        after.starts() == before.starts(),
        forall|a: int| #[trigger] after.is_start(a) == before.is_start(a),
        after.nr_allocations_spec() == before.nr_allocations_spec(),
{
    assert(before.starts().insert(data).remove(data) =~= before.starts());
    assert forall|a: int| #[trigger] after.is_start(a) == before.is_start(a) by {
        assert(after.starts().contains(a) == before.starts().contains(a));
    }
}

} // verus!
