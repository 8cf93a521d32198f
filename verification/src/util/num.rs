//! Integer helpers: ceiling base-2 logarithm and rounding up to a multiple.
use vstd::prelude::*;

verus! {

use vstd::arithmetic::power2::{pow2, lemma_pow2_unfold, lemma_pow2_pos, lemma_pow2_strictly_increases};
use vstd::std_specs::bits::u64_leading_zeros;

/// Number of significant bits of `n` (0 for 0).
pub open spec fn bit_len(n: nat) -> nat
    decreases n,
{
    if n == 0 { 0 } else { bit_len(n / 2) + 1 }
}

/// `ceil(log2(n))`, except that 0 and 1 both give 1.
pub open spec fn log2ceil_spec(n: nat) -> nat {
    if n <= 1 {
        1
    } else if pow2((bit_len(n) - 1) as nat) == n {
        (bit_len(n) - 1) as nat
    } else {
        bit_len(n)
    }
}

/// The smallest multiple of `to` that is at least `n`, as computed by [`round_up`].
pub open spec fn round_up_spec(n: nat, to: nat) -> nat
    recommends to > 0,
{
    to * (((n + to - 1) as nat) / to)
}

proof fn lemma_bit_len_bounds(n: nat)
    requires n > 0,
    ensures
        bit_len(n) >= 1,
        pow2((bit_len(n) - 1) as nat) <= n < pow2(bit_len(n)),
    decreases n,
{
    if n == 1 {
        assert(bit_len(0) == 0);
        assert(bit_len(1) == 1);
        vstd::arithmetic::power2::lemma2_to64();
    } else {
        lemma_bit_len_bounds(n / 2);
        let b = bit_len(n / 2);
        assert(bit_len(n) == b + 1);
        lemma_pow2_unfold(b + 1);
        if b >= 1 {
            lemma_pow2_unfold(b);
        }
    }
}

proof fn lemma_leading_zeros_bit_len(n: u64)
    ensures u64_leading_zeros(n) == 64 - bit_len(n as nat),
    decreases n,
{
    reveal(u64_leading_zeros);
    if n != 0 {
        lemma_leading_zeros_bit_len(n / 2);
    }
}

proof fn lemma_bit_len_le_64(n: u64)
    ensures bit_len(n as nat) <= 64,
{
    if n > 0 {
        lemma_bit_len_bounds(n as nat);
        if bit_len(n as nat) > 64 {
            vstd::arithmetic::power2::lemma2_to64();
            if bit_len(n as nat) - 1 > 64 {
                lemma_pow2_strictly_increases(64, (bit_len(n as nat) - 1) as nat);
            }
        }
    }
}

/// The characteristic property of [`log2ceil`]: for `n >= 2` the result `r`
/// is the least exponent with `n <= 2^r`.
pub proof fn lemma_log2ceil_is_least_power(n: nat)
    requires n >= 2,
    ensures
        log2ceil_spec(n) >= 1,
        pow2((log2ceil_spec(n) - 1) as nat) < n,
        n <= pow2(log2ceil_spec(n)),
{
    lemma_bit_len_bounds(n);
    let b = bit_len(n);
    if b == 1 {
        vstd::arithmetic::power2::lemma2_to64();
    }
    assert(b >= 2) by {
        if b == 1 {
            vstd::arithmetic::power2::lemma2_to64();
        }
    }
    if pow2((b - 1) as nat) == n {
        lemma_pow2_unfold((b - 1) as nat);
        lemma_pow2_pos((b - 2) as nat);
    }
}

/// `ceil(log2(n))`
pub fn log2ceil(n: u64) -> (r: u32)
    ensures
        r as nat == log2ceil_spec(n as nat),
        n <= 1 ==> r == 1,
        n >= 2 ==> pow2((r - 1) as nat) < n && n <= pow2(r as nat),
{
    if n <= 1 {
        1
    } else {
        proof {
            lemma_leading_zeros_bit_len(n);
            lemma_bit_len_le_64(n);
            lemma_bit_len_bounds(n as nat);
            lemma_log2ceil_is_least_power(n as nat);
        }
        let bitlen = u64::BITS - n.leading_zeros();
        assert(bitlen == bit_len(n as nat));
        // 1001 = 9 -> 4
        // 1000 = 8 -> 3
        let shift = bitlen - 1;
        proof {
            vstd::bits::lemma_u64_pow2_no_overflow(shift as nat);
            vstd::bits::lemma_u64_shl_is_mul(1, shift as u64);
        }
        if 1u64 << shift == n {
            bitlen - 1
        } else {
            bitlen
        }
    }
}

/// Round up `n` to the nearest `to`
pub fn round_up(n: usize, to: usize) -> (r: usize)
    requires
        to > 0,
        n + to - 1 <= usize::MAX,
    ensures
        r == round_up_spec(n as nat, to as nat),
        n <= r,
        r < n + to,
        r % to == 0,
{
    proof {
        lemma_round_up_properties(n as nat, to as nat);
    }
    to * ((n + (to - 1)) / to)
}

/// `round_up_spec(n, to)` is the least multiple of `to` that is not below `n`.
pub proof fn lemma_round_up_properties(n: nat, to: nat)
    requires to > 0,
    ensures
        n <= round_up_spec(n, to),
        round_up_spec(n, to) < n + to,
        round_up_spec(n, to) % to == 0,
        round_up_spec(n, to) <= n + to - 1,
{
    let q = ((n + to - 1) as nat) / to;
    let m = ((n + to - 1) as nat) % to;
    vstd::arithmetic::div_mod::lemma_fundamental_div_mod((n + to - 1) as int, to as int);
    assert(to * q + m == n + to - 1);
    assert(0 <= m < to);
    vstd::arithmetic::div_mod::lemma_mod_multiples_basic(q as int, to as int);
    vstd::arithmetic::mul::lemma_mul_is_commutative(q as int, to as int);
}

} // verus!
