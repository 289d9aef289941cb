//! Congruences over the integers.
//!
//! `congruent(x, y, m)` says that `x` and `y` leave the same remainder modulo
//! `m`. The lemmas below are the usual rules for calculating with it.

use vstd::prelude::*;
use vstd::arithmetic::div_mod::{
    lemma_fundamental_div_mod,
    lemma_fundamental_div_mod_converse,
    lemma_mod_equivalence,
};

verus! {

/// `x` and `y` differ by a multiple of `m`.
pub open spec fn congruent(x: int, y: int, m: int) -> bool {
    (x - y) % m == 0
}

/// A difference that is written as a multiple of `m` is a congruence.
pub proof fn lemma_congruent_intro(x: int, y: int, m: int, k: int)
    requires
        m > 0,
        x - y == k * m,
    ensures
        congruent(x, y, m),
{
    lemma_fundamental_div_mod_converse(x - y, m, k, 0);
}

/// Congruent numbers differ by `k * m` for the quotient `k` of their difference.
pub proof fn lemma_congruent_elim(x: int, y: int, m: int) -> (k: int)
    requires
        m > 0,
        congruent(x, y, m),
    ensures
        x - y == k * m,
        k == (x - y) / m,
{
    lemma_fundamental_div_mod(x - y, m);
    let k = (x - y) / m;
    assert(m * k == k * m) by (nonlinear_arith);
    k
}

/// A number is congruent to its remainder.
pub proof fn lemma_congruent_rem(x: int, m: int)
    requires
        m > 0,
    ensures
        congruent(x, x % m, m),
        congruent(x % m, x, m),
{
    lemma_fundamental_div_mod(x, m);
    let q = x / m;
    assert(m * q == q * m) by (nonlinear_arith);
    lemma_congruent_intro(x, x % m, m, q);
    assert((-q) * m == -(q * m)) by (nonlinear_arith);
    lemma_congruent_intro(x % m, x, m, -q);
}

/// Congruence is symmetric.
pub proof fn lemma_congruent_sym(x: int, y: int, m: int)
    requires
        m > 0,
        congruent(x, y, m),
    ensures
        congruent(y, x, m),
{
    let k = lemma_congruent_elim(x, y, m);
    assert((-k) * m == -(k * m)) by (nonlinear_arith);
    lemma_congruent_intro(y, x, m, -k);
}

/// Congruence is transitive.
pub proof fn lemma_congruent_trans(x: int, y: int, z: int, m: int)
    requires
        m > 0,
        congruent(x, y, m),
        congruent(y, z, m),
    ensures
        congruent(x, z, m),
{
    let k = lemma_congruent_elim(x, y, m);
    let l = lemma_congruent_elim(y, z, m);
    assert((k + l) * m == k * m + l * m) by (nonlinear_arith);
    lemma_congruent_intro(x, z, m, k + l);
}

/// Congruences may be added.
pub proof fn lemma_congruent_add(x: int, y: int, u: int, v: int, m: int)
    requires
        m > 0,
        congruent(x, y, m),
        congruent(u, v, m),
    ensures
        congruent(x + u, y + v, m),
{
    let k = lemma_congruent_elim(x, y, m);
    let l = lemma_congruent_elim(u, v, m);
    assert((k + l) * m == k * m + l * m) by (nonlinear_arith);
    lemma_congruent_intro(x + u, y + v, m, k + l);
}

/// Both sides of a congruence may be multiplied by the same number.
pub proof fn lemma_congruent_mul(x: int, y: int, z: int, m: int)
    requires
        m > 0,
        congruent(x, y, m),
    ensures
        congruent(x * z, y * z, m),
        congruent(z * x, z * y, m),
{
    let k = lemma_congruent_elim(x, y, m);
    assert(x * z - y * z == (k * z) * m && z * x - z * y == (k * z) * m) by (nonlinear_arith)
        requires
            x - y == k * m,
    ;
    lemma_congruent_intro(x * z, y * z, m, k * z);
    lemma_congruent_intro(z * x, z * y, m, k * z);
}

/// A congruence modulo `m` holds modulo every divisor `d` of `m`.
pub proof fn lemma_congruent_weaken(x: int, y: int, m: int, d: int)
    requires
        m > 0,
        d > 0,
        m % d == 0,
        congruent(x, y, m),
    ensures
        congruent(x, y, d),
{
    let k = lemma_congruent_elim(x, y, m);
    lemma_fundamental_div_mod(m, d);
    let c = m / d;
    assert(x - y == (k * c) * d) by (nonlinear_arith)
        requires
            x - y == k * m,
            m == d * c,
    ;
    lemma_congruent_intro(x, y, d, k * c);
}

/// Two congruent numbers in `[0, m)` are equal.
pub proof fn lemma_congruent_small(x: int, y: int, m: int)
    requires
        m > 0,
        0 <= x < m,
        0 <= y < m,
        congruent(x, y, m),
    ensures
        x == y,
{
    let k = lemma_congruent_elim(x, y, m);
    assert(k == 0) by (nonlinear_arith)
        requires
            x - y == k * m,
            -m < x - y < m,
            m > 0,
    ;
    assert(k * m == 0) by (nonlinear_arith)
        requires
            k == 0,
    ;
}

/// Congruent numbers are those with the same remainder.
pub proof fn lemma_congruent_same_rem(x: int, y: int, m: int)
    requires
        m > 0,
    ensures
        congruent(x, y, m) <==> x % m == y % m,
{
    lemma_mod_equivalence(x, y, m);
}

} // verus!
