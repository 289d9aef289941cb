//! Powers of two as machine words: masks, shifts and trailing zeros.

use vstd::prelude::*;
use vstd::arithmetic::div_mod::{
    lemma_fundamental_div_mod,
    lemma_fundamental_div_mod_converse,
    lemma_small_mod,
};
use vstd::arithmetic::power2::{
    lemma2_to64,
    lemma_pow2_adds,
    lemma_pow2_pos,
    lemma_pow2_strictly_increases,
    lemma_pow2_unfold,
    pow2,
};
use vstd::bits::{
    lemma_u64_low_bits_mask_is_mod,
    lemma_u64_shl_is_mul,
    lemma_u64_shr_is_div,
    lemma_usize_low_bits_mask_is_mod,
    lemma_usize_shl_is_mul,
    lemma_usize_shr_is_div,
    low_bits_mask,
};
use vstd::std_specs::bits::axiom_u64_trailing_zeros;

verus! {

/// `a` is `2^k` for some natural `k`.
pub open spec fn is_power_of_two(a: int) -> bool {
    exists|k: nat| a == pow2(k)
}

/// The number of values of a machine word: `2^32` or `2^64`.
pub open spec fn word_modulus() -> int {
    usize::MAX + 1
}

/// The word modulus is two to the number of bits of a word.
pub proof fn lemma_word_modulus()
    ensures
        usize::BITS == 32 || usize::BITS == 64,
        word_modulus() == pow2(usize::BITS as nat),
{
    lemma2_to64();
}

/// A smaller power of two divides a larger one, and the quotient is the power
/// of two of the difference of the exponents.
pub proof fn lemma_pow2_divides(i: nat, j: nat)
    requires
        i <= j,
    ensures
        pow2(j) == pow2(i) * pow2((j - i) as nat),
        pow2(j) as int % pow2(i) as int == 0,
        pow2(j) as int / pow2(i) as int == pow2((j - i) as nat),
{
    lemma_pow2_adds(i, (j - i) as nat);
    lemma_pow2_pos(i);
    lemma_pow2_pos((j - i) as nat);
    lemma_fundamental_div_mod_converse(
        pow2(j) as int,
        pow2(i) as int,
        pow2((j - i) as nat) as int,
        0,
    );
}

/// The exponent of a power of two that fits in a word is below the word's
/// number of bits.
pub proof fn lemma_exponent_fits(a: usize, k: nat)
    requires
        a == pow2(k),
    ensures
        k < usize::BITS,
{
    lemma_word_modulus();
    if k >= usize::BITS {
        if k > usize::BITS {
            lemma_pow2_strictly_increases(usize::BITS as nat, k);
        }
    }
}

/// Masking with a power of two less one takes the remainder.
pub proof fn lemma_mask_is_rem(x: usize, a: usize, k: nat)
    requires
        a == pow2(k),
    ensures
        a >= 1,
        x & ((a - 1) as usize) == x % a,
{
    lemma_exponent_fits(a, k);
    lemma_pow2_pos(k);
    lemma_usize_low_bits_mask_is_mod(x, k);
}

/// Shifting one to the left by `k` gives `2^k`.
pub proof fn lemma_shl_one(k: u32)
    requires
        k < usize::BITS,
    ensures
        1usize << k == pow2(k as nat),
{
    vstd::bits::lemma_usize_pow2_no_overflow(k as nat);
    lemma_usize_shl_is_mul(1usize, k as usize);
    assert(1usize << k == 1usize << (k as usize)) by (bit_vector);
}

/// Shifting to the right by `k` divides by `2^k`.
pub proof fn lemma_shr_is_div(x: usize, k: u32)
    requires
        k < usize::BITS,
    ensures
        x >> k == x as int / pow2(k as nat) as int,
{
    lemma_usize_shr_is_div(x, k as usize);
    assert(x >> k == x >> (k as usize)) by (bit_vector);
}

/// The number of zero bits below the lowest set bit of a word that is not zero.
///
/// Two to that number divides `x`, and the quotient is odd.
pub fn trailing_zeros(x: usize) -> (t: u32)
    requires
        x != 0,
    ensures
        t < usize::BITS,
        x as int % pow2(t as nat) as int == 0,
        (x as int / pow2(t as nat) as int) % 2 == 1,
{
    let y: u64 = x as u64;
    let t: u32 = y.trailing_zeros();
    proof {
        axiom_u64_trailing_zeros(y);
        let s: u64 = t as u64;
        assert(s < 64);
        lemma_pow2_pos(t as nat);
        vstd::bits::lemma_u64_pow2_no_overflow(t as nat);
        lemma_u64_shr_is_div(y, s);
        let high: u64 = y >> s;
        assert(high & 1 == high % 2) by (bit_vector);
        lemma_u64_shl_is_mul(1u64, s);
        let unit: u64 = 1u64 << s;
        assert(unit == pow2(t as nat));
        let rest: u64 = (64 - s) as u64;
        assert(y & ((unit - 1) as u64) == 0) by (bit_vector)
            requires
                y << rest == 0,
                rest == 64 - s,
                s < 64,
                unit == 1u64 << s,
        ;
        lemma_u64_low_bits_mask_is_mod(y, t as nat);
        assert(low_bits_mask(t as nat) == unit - 1);
        assert(y % (pow2(t as nat) as u64) == 0);
        lemma_word_modulus();
        lemma2_to64();
        if t >= usize::BITS {
            if t > usize::BITS {
                lemma_pow2_strictly_increases(usize::BITS as nat, t as nat);
            }
            lemma_fundamental_div_mod(x as int, pow2(t as nat) as int);
            lemma_small_mod(x as nat, pow2(t as nat));
        }
    }
    t
}

/// Whether `a` is a power of two: whether `a` is not zero and nothing is left
/// of it above its lowest set bit.
pub fn check_power_of_two(a: usize) -> (yes: bool)
    ensures
        yes == is_power_of_two(a as int),
{
    if a == 0 {
        proof {
            assert forall|k: nat| a as int != pow2(k) by {
                lemma_pow2_pos(k);
            }
        }
        return false;
    }
    let t: u32 = trailing_zeros(a);
    proof {
        lemma_shr_is_div(a, t);
        lemma_pow2_pos(t as nat);
        lemma_fundamental_div_mod(a as int, pow2(t as nat) as int);
        if is_power_of_two(a as int) {
            let k = choose|k: nat| a as int == pow2(k);
            lemma_power_of_two_exponent(k, t as nat);
            lemma_fundamental_div_mod_converse(a as int, a as int, 1, 0);
        }
    }
    (a >> t) == 1
}

/// The quotient of a power of two by a smaller power of two is odd only when
/// the two are equal, so a divisor `2^t` with an odd quotient has `t == k`.
pub proof fn lemma_power_of_two_exponent(k: nat, t: nat)
    requires
        pow2(k) as int % pow2(t) as int == 0,
        (pow2(k) as int / pow2(t) as int) % 2 == 1,
    ensures
        t == k,
{
    lemma_pow2_pos(k);
    lemma_pow2_pos(t);
    if t < k {
        lemma_pow2_divides(t, k);
        lemma_pow2_unfold((k - t) as nat);
    } else if t > k {
        lemma_pow2_strictly_increases(k, t);
        lemma_small_mod(pow2(k), pow2(t));
    }
}

} // verus!
