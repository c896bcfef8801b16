//! Facts about powers of two that the generator and the content mutator rest on:
//! masking with `m - 1` is reduction modulo `m`, reduction modulo `2^64` does not
//! disturb reduction modulo `m`, and a number is a power of two exactly when its
//! binary representation holds a single one.

use vstd::prelude::*;
use vstd::arithmetic::div_mod::{lemma_mod_mod, lemma_fundamental_div_mod};
use vstd::arithmetic::power2::{
    is_pow2, is_pow2_equiv, lemma2_to64, lemma_pow2_adds, lemma_pow2_pos,
    lemma_pow2_strictly_increases, pow2,
};
use vstd::bits::{lemma_u64_low_bits_mask_is_mod, low_bits_mask};

verus! {

/// `2^64`, the number of values of a `u64`.
pub open spec fn word_range() -> int {
    0x1_0000_0000_0000_0000
}

/// The number of ones in the binary representation of `n`.
pub open spec fn ones(n: nat) -> nat
    decreases n,
{
    if n == 0 {
        0
    } else {
        (n % 2) + ones(n / 2)
    }
}

/// Only zero has no one in its binary representation.
pub proof fn lemma_ones_zero(n: nat)
    ensures
        ones(n) == 0 <==> n == 0,
    decreases n,
{
    if n != 0 {
        lemma_ones_zero(n / 2);
    }
}

/// A number is a power of two exactly when its binary representation holds a
/// single one.
pub proof fn lemma_single_one_is_pow2(n: nat)
    ensures
        ones(n) == 1 <==> is_pow2(n as int),
    decreases n,
{
    reveal(is_pow2);
    if n >= 2 {
        lemma_single_one_is_pow2(n / 2);
        lemma_ones_zero(n / 2);
    } else if n == 1 {
        assert(ones(0) == 0);
        assert(ones(1) == 1 + ones(0));
    }
}

/// A power of two is positive.
pub proof fn lemma_pow2_positive(m: int)
    requires
        is_pow2(m),
    ensures
        m >= 1,
{
    reveal(is_pow2);
}

/// A power of two is `2^k` for some `k`, and `k < 64` where it lies in the range
/// of `u64`.
pub proof fn lemma_pow2_exponent(m: int) -> (k: nat)
    requires
        is_pow2(m),
    ensures
        pow2(k) == m,
        m <= u64::MAX ==> k < 64,
{
    is_pow2_equiv(m);
    let k = choose|i: nat| vstd::arithmetic::power::pow(2, i) == m;
    lemma_pow2_positive(m);
    lemma2_to64();
    lemma_pow2_pos(k);
    if k > 64 {
        lemma_pow2_strictly_increases(64, k);
    }
    k
}

/// Masking with `m - 1` reduces modulo `m` when `m` is a power of two.
pub proof fn lemma_mask_is_mod(n: u64, m: u64)
    requires
        is_pow2(m as int),
    ensures
        m >= 1,
        n & ((m - 1) as u64) == n % m,
{
    let k = lemma_pow2_exponent(m as int);
    lemma_pow2_pos(k);
    lemma_u64_low_bits_mask_is_mod(n, k);
    assert(low_bits_mask(k) == m - 1);
}

/// A power of two in the range of `u64` divides `2^64`, so reducing modulo `2^64`
/// first does not change the remainder modulo `m`.
pub proof fn lemma_wrap_keeps_mod(x: int, m: u64)
    requires
        is_pow2(m as int),
    ensures
        (x % word_range()) % (m as int) == x % (m as int),
{
    let k = lemma_pow2_exponent(m as int);
    let rest = (64 - k) as nat;
    lemma2_to64();
    lemma_pow2_adds(k, rest);
    lemma_pow2_pos(rest);
    lemma_pow2_pos(k);
    assert(pow2(k) * pow2(rest) == word_range());
    lemma_mod_mod(x, m as int, pow2(rest) as int);
}

/// Half of an even power of two is a power of two.
pub proof fn lemma_pow2_half(m: int)
    requires
        is_pow2(m),
        m > 1,
    ensures
        m % 2 == 0,
        is_pow2(m / 2),
        m == 2 * (m / 2),
{
    reveal(is_pow2);
    lemma_fundamental_div_mod(m, 2);
}

/// Twice a power of two is a power of two.
pub proof fn lemma_pow2_double(m: int)
    requires
        is_pow2(m),
    ensures
        is_pow2(2 * m),
{
    reveal(is_pow2);
    lemma_pow2_positive(m);
    assert((2 * m) / 2 == m);
    assert((2 * m) % 2 == 0);
}

} // verus!
