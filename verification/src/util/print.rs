//! Rendering values as ASCII bytes without allocating: each value yields a
//! fixed-size array and the range of it that holds the text.
use vstd::prelude::*;

verus! {


/// The number of characters of the longest `usize` ("18446744073709551615").
pub const MAX_NR_CHARS_USIZE: usize = 20;

/// The decimal digits of `n`, most significant first, with no leading zero
/// (empty for 0).
pub open spec fn digits(n: nat) -> Seq<u8>
    decreases n,
{
    if n == 0 {
        Seq::empty()
    } else {
        digits(n / 10).push((48 + n % 10) as u8)
    }
}

/// The decimal text of `n`.
pub open spec fn decimal(n: nat) -> Seq<u8> {
    if n == 0 {
        seq![48u8]
    } else {
        digits(n)
    }
}

/// Bit `i` of `n`, as the character `1` or `0`.
pub open spec fn bit_char(n: u128, i: int) -> u8 {
    if (n >> (i as u128)) & 1u128 == 1u128 { 49u8 } else { 48u8 }
}

spec fn pow10(k: nat) -> nat
    decreases k,
{
    if k == 0 { 1 } else { 10 * pow10((k - 1) as nat) }
}

proof fn lemma_digits_len(n: nat, k: nat)
    requires
        n < pow10(k),
    ensures
        digits(n).len() <= k,
    decreases n,
{
    if n > 0 {
        assert(k > 0);
        assert(n / 10 < pow10((k - 1) as nat));
        lemma_digits_len(n / 10, (k - 1) as nat);
    }
}

proof fn lemma_usize_digits_len(n: usize)
    ensures
        digits(n as nat).len() <= MAX_NR_CHARS_USIZE,
{
    assert(pow10(20) == 100_000_000_000_000_000_000) by {
        reveal_with_fuel(pow10, 21);
    }
    lemma_digits_len(n as nat, 20);
}

/// A fixed array of items with the range `i..end` of it still to be handed
/// out.
pub struct ArrayIter<T, const SIZE: usize> {
    pub array: [T; SIZE],
    pub i: usize,
    pub end: usize,
}

impl<T: Copy, const SIZE: usize> ArrayIter<T, SIZE> {
    /// The next item, if `i` has not reached `end`.
    pub fn next(&mut self) -> (r: Option<T>)
        requires
            old(self).i != old(self).end ==> old(self).i < SIZE,
        ensures
            final(self).array == old(self).array,
            final(self).end == old(self).end,
            old(self).i == old(self).end ==> r is None && final(self).i == old(self).i,
            old(self).i != old(self).end ==> r == Some(old(self).array@[old(self).i as int])
                && final(self).i == old(self).i + 1,
    {
        if self.i == self.end {
            return None;
        }
        let el = self.array[self.i];
        self.i += 1;
        Some(el)
    }
}

/// A value that can be written out as ASCII text.
pub trait AsciiRepr {
    type AsciiIter;

    /// Whether the text of this value can be produced.
    spec fn chars_defined(&self) -> bool;

    /// The characters of this value.
    fn chars(&self) -> Self::AsciiIter
        requires
            self.chars_defined(),
    ;
}

/// The lowest `SIZE` bits of a number.
pub struct Bits<const SIZE: usize> {
    n: u128,
}

impl<const SIZE: usize> Bits<SIZE> {
    pub closed spec fn value(&self) -> u128 {
        self.n
    }

    pub fn new(n: u128) -> (r: Self)
        ensures
            r.value() == n,
    {
        Self { n }
    }
}

impl<const SIZE: usize> AsciiRepr for Bits<SIZE> {
    type AsciiIter = ArrayIter<u8, 128>;

    open spec fn chars_defined(&self) -> bool {
        SIZE <= 128
    }

    /// The bits, lowest first, as `0` and `1` characters.
    fn chars(&self) -> (r: ArrayIter<u8, 128>)
        ensures
            r.i == 0,
            r.end == SIZE,
            forall|k: int| 0 <= k < SIZE ==> #[trigger] r.array@[k] == bit_char(self.value(), k),
            forall|k: int| SIZE <= k < 128 ==> #[trigger] r.array@[k] == 0,
    {
        let mut array = [0u8; 128];
        let mut i: usize = 0;
        while i < SIZE
            invariant
                SIZE <= 128,
                i <= SIZE,
                array@.len() == 128,
                forall|k: int| 0 <= k < i ==> #[trigger] array@[k] == bit_char(self.n, k),
                forall|k: int| i <= k < 128 ==> #[trigger] array@[k] == 0,
            decreases SIZE - i,
        {
            proof {
                let n = self.n;
                let s = i as u128;
                assert(((n & (1u128 << s)) != 0u128) == ((n >> s) & 1u128 == 1u128)) by (bit_vector)
                    requires s < 128;
            }
            array[i] = if (self.n & (1u128 << (i as u128))) != 0 { 49u8 } else { 48u8 };
            i = i + 1;
        }
        ArrayIter { array, i: 0, end: SIZE }
    }
}

impl AsciiRepr for usize {
    type AsciiIter = ArrayIter<u8, 21>;

    open spec fn chars_defined(&self) -> bool {
        true
    }

    /// The decimal digits, at the end of the array.
    fn chars(&self) -> (r: ArrayIter<u8, 21>)
        ensures
            r.end == 21,
            r.i <= 20,
            r.array@.subrange(r.i as int, 21) == decimal(*self as nat),
    {
        let mut n = *self;
        let mut result = [0u8; 21];
        let mut i: usize = 20;
        if n == 0 {
            result[i] = 48u8;
            i -= 1;
            assert(result@.subrange(i + 1, 21) =~= seq![48u8]);
        } else {
            proof {
                lemma_usize_digits_len(*self);
            }
            while n > 0
                invariant
                    i <= 20,
                    result@.len() == 21,
                    digits(*self as nat) == digits(n as nat) + result@.subrange(i + 1, 21),
                    digits(n as nat).len() <= i,
                decreases n,
            {
                let ghost before = result@;
                assert(digits(n as nat) == digits((n / 10) as nat).push((48 + n % 10) as u8));
                result[i] = (n % 10) as u8 + 48u8;
                assert(result@.subrange(i as int, 21) =~= seq![result@[i as int]] + before.subrange(i + 1, 21));
                n /= 10;
                i -= 1;
            }
            assert(digits(n as nat) =~= Seq::<u8>::empty());
            assert(digits(*self as nat) =~= result@.subrange(i + 1, 21));
        }
        let end = result.len();
        let i = i + 1;
        ArrayIter { array: result, i, end }
    }
}

/// Unbuffered output stream (writing through it does not allocate).
pub struct COut(());

pub fn cout() -> COut {
    COut(())
}

/// The end of a line.
pub struct Endl(());

pub fn endl() -> Endl {
    Endl(())
}

impl AsciiRepr for Endl {
    type AsciiIter = ArrayIter<u8, 1>;

    open spec fn chars_defined(&self) -> bool {
        true
    }

    /// A single newline.
    fn chars(&self) -> (r: ArrayIter<u8, 1>)
        ensures
            r.array@ == seq![10u8],
            r.i == 0,
            r.end == 1,
    {
        let r = ArrayIter { array: [10u8], i: 0, end: 1 };
        assert(r.array@ =~= seq![10u8]);
        r
    }
}

/// Append the decimal digits of `n` to `buf`.
pub fn write_usize(buf: &mut Vec<u8>, n: usize)
    ensures
        final(buf)@ == old(buf)@ + decimal(n as nat),
{
    broadcast use vstd::array::group_array_axioms;
    let mut it = n.chars();
    let ghost arr = it.array@;
    let ghost start = it.i as int;
    assert(arr.len() == 21);
    while it.i < it.end
        invariant
            it.end == 21,
            it.array@ == arr,
            arr.len() == 21,
            0 <= start <= it.i <= 21,
            arr.subrange(start, 21) == decimal(n as nat),
            buf@ == old(buf)@ + arr.subrange(start, it.i as int),
        decreases 21 - it.i,
    {
        let ghost before = it.i as int;
        match it.next() {
            Some(c) => {
                buf.push(c);
                assert(arr.subrange(start, before + 1) =~= arr.subrange(start, before).push(c));
            },
            None => {},
        }
    }
}

} // verus!
