//! Multiplicative inverses modulo a power of two.
//!
//! An odd number has an inverse modulo every power of two. The inverse modulo
//! sixteen is read from a table; Newton's iteration `y <- y * (2 - x * y)` then
//! doubles the number of bits on which `x * y` agrees with one.

use vstd::prelude::*;
use vstd::arithmetic::power2::{
    lemma2_to64,
    lemma_pow2_adds,
    lemma_pow2_pos,
    lemma_pow2_strictly_increases,
    pow2,
};
use crate::bits::{
    is_power_of_two,
    lemma_exponent_fits,
    lemma_mask_is_rem,
    lemma_pow2_divides,
    lemma_power_of_two_exponent,
    lemma_word_modulus,
    trailing_zeros,
    word_modulus,
};
use crate::congruence::{
    congruent,
    lemma_congruent_add,
    lemma_congruent_elim,
    lemma_congruent_intro,
    lemma_congruent_mul,
    lemma_congruent_rem,
    lemma_congruent_same_rem,
    lemma_congruent_small,
    lemma_congruent_sym,
    lemma_congruent_trans,
    lemma_congruent_weaken,
};

verus! {

/// The inverses modulo 16 of the odd residues 1, 3, .., 15, in that order.
pub const INV_TABLE_MOD_16: [u8; 8] = [1, 11, 13, 7, 9, 3, 5, 15];

/// The modulus that `INV_TABLE_MOD_16` is for.
pub const INV_TABLE_MOD: usize = 16;

/// The exponent `s` with `INV_TABLE_MOD == 2^s`.
pub const INV_TABLE_MOD_POW: u32 = 4;

/// Twice `INV_TABLE_MOD_POW`.
pub const INV_TABLE_MOD_POW_TIMES_2: u32 = 8;

/// `y` is an inverse of `x` modulo `m`.
pub open spec fn is_inverse(x: int, y: int, m: int) -> bool {
    (x * y) % m == 1int % m
}

/// A number has at most one inverse in `[0, m)`.
pub proof fn lemma_inverse_unique(x: int, first: int, second: int, m: int)
    requires
        m > 0,
        0 <= first < m,
        0 <= second < m,
        is_inverse(x, first, m),
        is_inverse(x, second, m),
    ensures
        first == second,
{
    lemma_congruent_same_rem(x * first, 1, m);
    lemma_congruent_same_rem(x * second, 1, m);
    // first = first * (x * second) = (x * first) * second = second
    lemma_congruent_mul(x * second, 1, first, m);
    lemma_congruent_mul(x * first, 1, second, m);
    assert(first * (x * second) == (x * first) * second && first * 1 == first && 1 * second
        == second) by (nonlinear_arith);
    lemma_congruent_sym(first * (x * second), first, m);
    lemma_congruent_trans(first, (x * first) * second, second, m);
    lemma_congruent_small(first, second, m);
}

/// One step of Newton's iteration: from an inverse modulo `m` to one modulo
/// `m * m`. The step may be computed modulo any multiple `w` of `m * m`.
pub proof fn lemma_newton_step(x: int, y: int, next: int, m: int, w: int)
    requires
        m > 0,
        w > 0,
        w % (m * m) == 0,
        congruent(x * y, 1, m),
        congruent(next, y * (2 - x * y), w),
    ensures
        m * m > 0,
        congruent(x * next, 1, m * m),
{
    assert(m * m > 0) by (nonlinear_arith)
        requires
            m > 0,
    ;
    let mm = m * m;
    let target = y * (2 - x * y);
    lemma_congruent_weaken(next, target, w, mm);
    lemma_congruent_mul(next, target, x, mm);
    let k = lemma_congruent_elim(x * y, 1, m);
    assert(x * target - 1 == (-(k * k)) * mm) by (nonlinear_arith)
        requires
            x * y - 1 == k * m,
            target == y * (2 - x * y),
            mm == m * m,
    ;
    lemma_congruent_intro(x * target, 1, mm, -(k * k));
    lemma_congruent_trans(x * next, x * target, 1, mm);
}

/// Newton's step in wrapping arithmetic agrees with the step over the integers
/// modulo the number of values of a word.
pub proof fn lemma_wrapping_newton_step(x: usize, y: usize)
    ensures
        congruent(
            y.wrapping_mul(2usize.wrapping_sub(x.wrapping_mul(y))) as int,
            y * (2 - x * y),
            word_modulus(),
        ),
{
    let w = word_modulus();
    let u = x.wrapping_mul(y);
    let v = 2usize.wrapping_sub(u);
    let next = y.wrapping_mul(v);
    assert(u == (x * y) % w);
    lemma_congruent_rem(x * y, w);
    // v is 2 - u, up to one multiple of w
    if 2 - u < 0 {
        lemma_congruent_intro(v as int, 2 - u, w, 1);
    } else {
        lemma_congruent_intro(v as int, 2 - u, w, 0);
    }
    lemma_congruent_intro(2, 2, w, 0);
    lemma_congruent_mul(u as int, x * y, -1, w);
    lemma_congruent_add(2, 2, u * (-1), (x * y) * (-1), w);
    assert(2 + u * (-1) == 2 - u && 2 + (x * y) * (-1) == 2 - x * y) by (nonlinear_arith);
    lemma_congruent_trans(v as int, 2 - u, 2 - x * y, w);
    lemma_congruent_mul(v as int, 2 - x * y, y as int, w);
    assert(next == (y * v) % w);
    lemma_congruent_rem(y * v, w);
    lemma_congruent_trans(next as int, y * v, y * (2 - x * y), w);
}

/// The table's index for `x`: the residue of `x` modulo 16, halved.
pub proof fn lemma_table_index(x: usize)
    ensures
        ((x & 15) >> 1) == (x % 16) / 2,
        ((x & 15) >> 1) < 8,
{
    assert(((x & 15) >> 1) == (x % 16) / 2) by (bit_vector);
}

/// The table holds an inverse modulo 16 of every odd number.
pub proof fn lemma_table_inverse(x: usize)
    requires
        x % 2 == 1,
    ensures
        congruent(x * INV_TABLE_MOD_16[((x & 15) >> 1) as int], 1, 16),
{
    lemma_table_index(x);
    let i = ((x % 16) / 2) as int;
    let y = INV_TABLE_MOD_16[i] as int;
    assert(x % 16 == 2 * i + 1);
    let r = (x % 16) as int;
    let q = (x / 16) as int;
    assert(x == 16 * q + r);
    assert((x * y) % 16 == 1) by {
        if i == 0 {
            assert(x * y == 16 * q + 1) by (nonlinear_arith)
                requires x == 16 * q + r, r == 1, y == 1;
        } else if i == 1 {
            assert(x * y == 16 * (11 * q + 2) + 1) by (nonlinear_arith)
                requires x == 16 * q + r, r == 3, y == 11;
        } else if i == 2 {
            assert(x * y == 16 * (13 * q + 4) + 1) by (nonlinear_arith)
                requires x == 16 * q + r, r == 5, y == 13;
        } else if i == 3 {
            assert(x * y == 16 * (7 * q + 3) + 1) by (nonlinear_arith)
                requires x == 16 * q + r, r == 7, y == 7;
        } else if i == 4 {
            assert(x * y == 16 * (9 * q + 5) + 1) by (nonlinear_arith)
                requires x == 16 * q + r, r == 9, y == 9;
        } else if i == 5 {
            assert(x * y == 16 * (3 * q + 2) + 1) by (nonlinear_arith)
                requires x == 16 * q + r, r == 11, y == 3;
        } else if i == 6 {
            assert(x * y == 16 * (5 * q + 4) + 1) by (nonlinear_arith)
                requires x == 16 * q + r, r == 13, y == 5;
        } else {
            assert(x * y == 16 * (15 * q + 14) + 1) by (nonlinear_arith)
                requires x == 16 * q + r, r == 15, y == 15;
        }
    }
    lemma_congruent_same_rem(x * y, 1, 16);
}

/// An inverse of the odd number `x` modulo `2^mpow`.
///
/// The result is not reduced: it is an inverse modulo `2^mpow` as it stands,
/// and so is its remainder modulo `2^mpow`. Modulo one, where every number
/// inverts every other, `x` may be even.
pub fn mod_pow_2_inv(x: usize, mpow: u32) -> (inverse: usize)
    requires
        x % 2 == 1 || mpow == 0,
        mpow <= usize::BITS,
    ensures
        is_inverse(x as int, inverse as int, pow2(mpow as nat) as int),
{
    proof {
        lemma_table_index(x);
        lemma2_to64();
        lemma_word_modulus();
    }
    let table_inverse: usize = INV_TABLE_MOD_16[(x & (INV_TABLE_MOD - 1)) >> 1] as usize;
    if mpow == 0 {
        return table_inverse;
    }
    proof {
        lemma_table_inverse(x);
    }
    if mpow <= INV_TABLE_MOD_POW {
        proof {
            lemma_pow2_pos(mpow as nat);
            lemma_pow2_divides(mpow as nat, 4);
            lemma_congruent_weaken(x * table_inverse, 1, 16, pow2(mpow as nat) as int);
            lemma_congruent_same_rem(x * table_inverse, 1, pow2(mpow as nat) as int);
        }
        table_inverse
    } else {
        let mut inverse: usize = table_inverse;
        let mut going_modpow: u32 = INV_TABLE_MOD_POW_TIMES_2;
        loop
            invariant
                mpow <= usize::BITS,
                usize::BITS == 32 || usize::BITS == 64,
                going_modpow == 8 || going_modpow == 16 || going_modpow == 32 || going_modpow
                    == 64,
                going_modpow / 2 < mpow,
                congruent(x * inverse, 1, pow2((going_modpow / 2) as nat) as int),
            decreases 128 - going_modpow,
        {
            let ghost before = inverse;
            inverse = inverse.wrapping_mul(2usize.wrapping_sub(x.wrapping_mul(inverse)));
            proof {
                let half = (going_modpow / 2) as nat;
                let m = pow2(half) as int;
                let goal = pow2(mpow as nat) as int;
                lemma_pow2_pos(half);
                lemma_pow2_pos(mpow as nat);
                lemma_pow2_adds(half, half);
                lemma_word_modulus();
                lemma_pow2_divides(going_modpow as nat, usize::BITS as nat);
                lemma_wrapping_newton_step(x, before);
                lemma_newton_step(x as int, before as int, inverse as int, m, word_modulus());
                assert(congruent(x * inverse, 1, pow2(going_modpow as nat) as int));
                if going_modpow >= mpow {
                    lemma_pow2_divides(mpow as nat, going_modpow as nat);
                    lemma_congruent_weaken(
                        x * inverse,
                        1,
                        pow2(going_modpow as nat) as int,
                        goal,
                    );
                    lemma_congruent_same_rem(x * inverse, 1, goal);
                }
            }
            if going_modpow >= mpow {
                return inverse;
            }
            assert(going_modpow << 1 == 2 * going_modpow) by (bit_vector)
                requires
                    going_modpow <= 64,
            ;
            going_modpow <<= 1;
        }
    }
}

/// The inverse in `[0, m)` of the odd number `x` modulo the power of two `m`.
///
/// Modulo one, where the inverse is zero, `x` may be even.
pub fn mod_inv(x: usize, m: usize) -> (inverse: usize)
    requires
        is_power_of_two(m as int),
        x % 2 == 1 || m == 1,
    ensures
        inverse < m,
        is_inverse(x as int, inverse as int, m as int),
{
    let ghost k: nat = choose|k: nat| m as int == pow2(k);
    proof {
        lemma_pow2_pos(k);
        lemma_exponent_fits(m, k);
    }
    let mpow: u32 = trailing_zeros(m);
    proof {
        lemma_power_of_two_exponent(k, mpow as nat);
        lemma2_to64();
        if m == 1 && k > 0 {
            lemma_pow2_strictly_increases(0, k);
        }
    }
    let unreduced: usize = mod_pow_2_inv(x, mpow);
    let inverse: usize = unreduced & (m - 1);
    proof {
        lemma_mask_is_rem(unreduced, m, k);
        lemma_congruent_same_rem(x * unreduced, 1, m as int);
        lemma_congruent_rem(unreduced as int, m as int);
        lemma_congruent_mul(inverse as int, unreduced as int, x as int, m as int);
        lemma_congruent_trans(x * inverse, x * unreduced, 1, m as int);
        lemma_congruent_same_rem(x * inverse, 1, m as int);
    }
    inverse
}

} // verus!
