//! Minimum bit widths: how many binary digits a count of distinct values
//! needs, defined through the length of a number's binary representation.

use vstd::arithmetic::power2::lemma2_to64;
use vstd::arithmetic::power2::lemma2_to64_rest;
use vstd::arithmetic::power2::lemma_pow2_unfold;
use vstd::arithmetic::power2::pow2;
use vstd::prelude::*;

verus! {

/// Length of the binary representation of `n`: 0 for 0, and one digit per
/// halving otherwise.
pub open spec fn bit_len(n: nat) -> nat
    decreases n,
{
    if n == 0 {
        0
    } else {
        1 + bit_len(n / 2)
    }
}

/// Minimum number of bits `b` with `2^b >= n`, for `n >= 1`: one less than
/// `n` distinct increments fit in `bit_len(n - 1)` binary digits.
pub open spec fn min_bits_for(n: nat) -> nat
    recommends
        n >= 1,
{
    bit_len((n - 1) as nat)
}

/// A number below `2^k` has at most `k` binary digits.
pub proof fn lemma_bit_len_le(n: nat, k: nat)
    requires
        n < pow2(k),
    ensures
        bit_len(n) <= k,
    decreases n,
{
    if n > 0 {
        if k == 0 {
            assert(pow2(0) == 1) by {
                lemma2_to64();
            }
        } else {
            lemma_pow2_unfold(k);
            lemma_bit_len_le(n / 2, (k - 1) as nat);
        }
    }
}

/// Every number is below `2` to the power of its binary length.
pub proof fn lemma_bit_len_upper(n: nat)
    ensures
        n < pow2(bit_len(n)),
    decreases n,
{
    if n == 0 {
        assert(pow2(0) == 1) by {
            lemma2_to64();
        }
    } else {
        lemma_bit_len_upper(n / 2);
        lemma_pow2_unfold(bit_len(n));
    }
}

/// A positive number reaches `2` to the power of one less than its binary
/// length: the length is exact.
pub proof fn lemma_bit_len_lower(n: nat)
    requires
        n > 0,
    ensures
        bit_len(n) >= 1,
        pow2((bit_len(n) - 1) as nat) <= n,
    decreases n,
{
    if n == 1 {
        assert(bit_len(0) == 0);
        assert(bit_len(1) == 1);
        assert(pow2(0) == 1) by {
            lemma2_to64();
        }
    } else {
        lemma_bit_len_lower(n / 2);
        assert(bit_len(n) == 1 + bit_len(n / 2));
        lemma_pow2_unfold((bit_len(n) - 1) as nat);
        assert(pow2((bit_len(n) - 1) as nat) == 2 * pow2((bit_len(n / 2) - 1) as nat));
        assert(2 * pow2((bit_len(n / 2) - 1) as nat) <= 2 * (n / 2));
        assert(2 * (n / 2) <= n);
        assert((bit_len(n) - 2) as nat == (bit_len(n / 2) - 1) as nat);
        assert(pow2((bit_len(n) - 1) as nat) <= n);
    }
}

/// `min_bits_for(n)` is the least exponent whose power of two reaches `n`.
pub proof fn lemma_min_bits_for(n: nat)
    requires
        n >= 1,
    ensures
        pow2(min_bits_for(n)) >= n,
        min_bits_for(n) > 0 ==> pow2((min_bits_for(n) - 1) as nat) < n,
{
    lemma_bit_len_upper((n - 1) as nat);
    if min_bits_for(n) > 0 {
        lemma_bit_len_lower((n - 1) as nat);
    }
}

/// Minimum number of bits needed to enumerate `num` distinct values,
/// `ceil(log2(num))` computed without floating point: the binary length of
/// `num - 1`.
pub fn minimum_bits_needed(num: u64) -> (r: u8)
    requires
        num >= 1,
    ensures
        r == min_bits_for(num as nat),
        r <= 64,
{
    proof {
        lemma2_to64_rest();
        lemma_bit_len_le((num - 1) as nat, 64);
    }
    let mut n: u64 = num - 1;
    let mut counter: u8 = 0;
    while n != 0
        invariant
            counter + bit_len(n as nat) == min_bits_for(num as nat),
            min_bits_for(num as nat) <= 64,
        decreases n,
    {
        n = n / 2;
        counter = counter + 1;
    }
    counter
}

/// Exact power of two as a machine word, for exponents up to 63.
pub fn pow2_u64(e: u8) -> (r: u64)
    requires
        e <= 63,
    ensures
        r == pow2(e as nat),
{
    proof {
        lemma2_to64();
        lemma2_to64_rest();
        if e < 63 {
            vstd::arithmetic::power2::lemma_pow2_strictly_increases(e as nat, 63);
        }
    }
    let mut r: u64 = 1;
    let mut i: u8 = 0;
    while i < e
        invariant
            i <= e <= 63,
            r == pow2(i as nat),
            pow2(e as nat) <= pow2(63),
            pow2(63) == 0x8000_0000_0000_0000,
        decreases e - i,
    {
        proof {
            lemma_pow2_unfold((i + 1) as nat);
            if i + 1 < e {
                vstd::arithmetic::power2::lemma_pow2_strictly_increases((i + 1) as nat, e as nat);
            }
        }
        r = r * 2;
        i = i + 1;
    }
    r
}

} // verus!
