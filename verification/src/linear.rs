//! The linear congruence `address + count * stride = 0 (mod align)`.
//!
//! With `g` a common divisor of `stride` and `align`, the congruence has a
//! solution only if `g` divides `address`. Dividing all three by `g` then gives
//! a congruence with the same solutions. Where the reduced stride has an
//! inverse modulo the reduced alignment, the solution is unique modulo the
//! reduced alignment.

use vstd::prelude::*;
use vstd::arithmetic::div_mod::{
    lemma_fundamental_div_mod,
    lemma_fundamental_div_mod_converse,
    lemma_truncate_middle,
};
use crate::congruence::{
    congruent,
    lemma_congruent_add,
    lemma_congruent_elim,
    lemma_congruent_intro,
    lemma_congruent_mul,
    lemma_congruent_same_rem,
    lemma_congruent_small,
    lemma_congruent_sym,
    lemma_congruent_trans,
    lemma_congruent_weaken,
};

verus! {

/// Advancing `address` by `count` elements of `stride` bytes each gives a
/// multiple of `align`.
pub open spec fn aligns(address: int, stride: int, align: int, count: int) -> bool {
    (address + count * stride) % align == 0
}

/// No number of elements aligns the address.
pub open spec fn never_aligns(address: int, stride: int, align: int) -> bool {
    forall|count: int| 0 <= count ==> !#[trigger] aligns(address, stride, align, count)
}

/// `count` is the least number of elements that aligns the address.
pub open spec fn is_least_offset(address: int, stride: int, align: int, count: int) -> bool {
    &&& 0 <= count
    &&& aligns(address, stride, align, count)
    &&& forall|fewer: int| 0 <= fewer < count ==> !#[trigger] aligns(address, stride, align, fewer)
}

/// An aligned address needs no elements.
pub proof fn lemma_aligned(address: int, stride: int, align: int)
    requires
        address % align == 0,
    ensures
        is_least_offset(address, stride, align, 0),
{
    assert(address + 0 * stride == address) by (nonlinear_arith);
}

/// With a stride of zero an address that is not aligned stays so.
pub proof fn lemma_zero_stride(address: int, align: int)
    requires
        address % align != 0,
    ensures
        never_aligns(address, 0, align),
{
    assert forall|count: int| 0 <= count implies !#[trigger] aligns(address, 0, align, count) by {
        assert(address + count * 0 == address) by (nonlinear_arith);
    }
}

/// With a stride of one the offset is the distance to the next multiple of the
/// alignment.
pub proof fn lemma_unit_stride(address: int, align: int)
    requires
        align > 0,
        address % align != 0,
    ensures
        is_least_offset(address, 1, align, align - address % align),
{
    let r = address % align;
    let q = address / align;
    let count = align - r;
    lemma_fundamental_div_mod(address, align);
    assert(align * q == q * align && count * 1 == count && (q + 1) * align == q * align + align)
        by (nonlinear_arith);
    lemma_fundamental_div_mod_converse(address + count * 1, align, q + 1, 0);
    assert forall|fewer: int| 0 <= fewer < count implies !#[trigger] aligns(
        address,
        1,
        align,
        fewer,
    ) by {
        assert(fewer * 1 == fewer) by (nonlinear_arith);
        lemma_fundamental_div_mod_converse(address + fewer * 1, align, q, r + fewer);
    }
}

/// Whether a number of elements aligns the address depends only on its
/// remainder modulo the alignment.
pub proof fn lemma_period(address: int, stride: int, align: int, count: int)
    requires
        align > 0,
    ensures
        aligns(address, stride, align, count) <==> aligns(address, stride, align, count % align),
{
    let q = count / align;
    let r = count % align;
    lemma_fundamental_div_mod(count, align);
    assert((address + count * stride) - (address + r * stride) == (q * stride) * align)
        by (nonlinear_arith)
        requires
            count == align * q + r,
    ;
    lemma_congruent_intro(address + count * stride, address + r * stride, align, q * stride);
    lemma_congruent_same_rem(address + count * stride, address + r * stride, align);
}

/// If no number of elements below the alignment aligns the address, none does.
pub proof fn lemma_never_aligns(address: int, stride: int, align: int)
    requires
        align > 0,
        forall|count: int| 0 <= count < align ==> !#[trigger] aligns(address, stride, align, count),
    ensures
        never_aligns(address, stride, align),
{
    assert forall|count: int| 0 <= count implies !#[trigger] aligns(
        address,
        stride,
        align,
        count,
    ) by {
        lemma_period(address, stride, align, count);
        lemma_fundamental_div_mod(count, align);
        assert(0 <= count % align < align);
    }
}

/// A common divisor of stride and alignment divides every address that some
/// number of elements aligns.
pub proof fn lemma_obstruction(address: int, stride: int, align: int, g: int, count: int)
    requires
        g > 0,
        align > 0,
        align % g == 0,
        stride % g == 0,
        aligns(address, stride, align, count),
    ensures
        address % g == 0,
{
    let sum = address + count * stride;
    lemma_congruent_weaken(sum, 0, align, g);
    let k = lemma_congruent_elim(sum, 0, g);
    let l = lemma_congruent_elim(stride, 0, g);
    assert(address - 0 == (k - count * l) * g) by (nonlinear_arith)
        requires
            address + count * stride - 0 == k * g,
            stride - 0 == l * g,
    ;
    lemma_congruent_intro(address, 0, g, k - count * l);
}

/// Dividing address, stride and alignment by a common divisor keeps the
/// solutions.
pub proof fn lemma_reduce(address: int, stride: int, align: int, g: int, count: int)
    requires
        g > 0,
        align > 0,
        0 <= address + count * stride,
    ensures
        aligns(g * address, g * stride, g * align, count) <==> aligns(
            address,
            stride,
            align,
            count,
        ),
{
    let sum = address + count * stride;
    assert(g * address + count * (g * stride) == g * sum) by (nonlinear_arith)
        requires
            sum == address + count * stride,
    ;
    lemma_truncate_middle(sum, g, align);
    let r = sum % align;
    assert(g * r == 0 <==> r == 0) by (nonlinear_arith)
        requires
            g > 0,
    ;
}

/// The quotient by `g` of the remainder modulo `g * m` is, modulo `m`, the
/// quotient by `g`.
pub proof fn lemma_quotient_of_remainder(x: int, g: int, m: int)
    requires
        g > 0,
        m > 0,
        x % g == 0,
    ensures
        g * m > 0,
        0 <= (x % (g * m)) / g < m,
        congruent((x % (g * m)) / g, x / g, m),
{
    assert(g * m > 0) by (nonlinear_arith)
        requires
            g > 0,
            m > 0,
    ;
    let a = g * m;
    let r = x % a;
    let q = x / a;
    let y = x / g;
    lemma_fundamental_div_mod(x, a);
    lemma_fundamental_div_mod(x, g);
    assert(r == (y - m * q) * g + 0) by (nonlinear_arith)
        requires
            x == a * q + r,
            x == g * y,
            a == g * m,
    ;
    lemma_fundamental_div_mod_converse(r, g, y - m * q, 0);
    let z = r / g;
    assert(0 <= z < m) by (nonlinear_arith)
        requires
            r == z * g,
            0 <= r < g * m,
            g > 0,
    ;
    assert(z - y == (-q) * m) by (nonlinear_arith)
        requires
            z == y - m * q,
    ;
    lemma_congruent_intro(z, y, m, -q);
}

/// Where the stride has an inverse, the inverse times the negated address
/// solves the congruence.
pub proof fn lemma_solves(address: int, stride: int, align: int, inverse: int, count: int)
    requires
        align > 0,
        congruent(stride * inverse, 1, align),
        congruent(count, (align - address) * inverse, align),
    ensures
        congruent(address + count * stride, 0, align),
{
    let j = align - address;
    lemma_congruent_mul(count, j * inverse, stride, align);
    assert((j * inverse) * stride == j * (stride * inverse)) by (nonlinear_arith);
    lemma_congruent_mul(stride * inverse, 1, j, align);
    assert(j * 1 == j) by (nonlinear_arith);
    lemma_congruent_trans(count * stride, j * (stride * inverse), j, align);
    lemma_congruent_intro(address, address, align, 0);
    lemma_congruent_add(address, address, count * stride, j, align);
    lemma_congruent_intro(address + j, 0, align, 1);
    lemma_congruent_trans(address + count * stride, address + j, 0, align);
}

/// Where the stride has an inverse, two solutions are congruent.
pub proof fn lemma_unique(
    address: int,
    stride: int,
    align: int,
    inverse: int,
    first: int,
    second: int,
)
    requires
        align > 0,
        congruent(stride * inverse, 1, align),
        congruent(address + first * stride, 0, align),
        congruent(address + second * stride, 0, align),
    ensures
        congruent(first, second, align),
{
    let d = first - second;
    let k = lemma_congruent_elim(address + first * stride, 0, align);
    let l = lemma_congruent_elim(address + second * stride, 0, align);
    assert(d * stride - 0 == (k - l) * align) by (nonlinear_arith)
        requires
            address + first * stride - 0 == k * align,
            address + second * stride - 0 == l * align,
            d == first - second,
    ;
    lemma_congruent_intro(d * stride, 0, align, k - l);
    lemma_congruent_mul(d * stride, 0, inverse, align);
    assert((d * stride) * inverse == d * (stride * inverse) && 0 * inverse == 0)
        by (nonlinear_arith);
    lemma_congruent_mul(stride * inverse, 1, d, align);
    assert(d * 1 == d) by (nonlinear_arith);
    lemma_congruent_sym(d * (stride * inverse), d, align);
    lemma_congruent_trans(d, d * (stride * inverse), 0, align);
    let e = lemma_congruent_elim(d, 0, align);
    lemma_congruent_intro(first, second, align, e);
}

/// The solution of the congruence from its reduced form.
///
/// `g` divides address, stride and alignment; `inverse` inverts the reduced
/// stride modulo the reduced alignment `reduced`; and `count` is, in
/// `[0, reduced)`, the product of the reduced distance to alignment and the
/// inverse. Then `count` is the least number of elements that aligns the
/// address.
pub proof fn lemma_least_offset(
    address: int,
    stride: int,
    align: int,
    g: int,
    reduced: int,
    inverse: int,
    count: int,
)
    requires
        0 <= address,
        0 <= stride,
        g > 0,
        reduced > 0,
        align == g * reduced,
        address % g == 0,
        stride % g == 0,
        congruent(((stride % align) / g) * inverse, 1, reduced),
        congruent(count, (reduced - (address % align) / g) * inverse, reduced),
        0 <= count < reduced,
    ensures
        is_least_offset(address, stride, align, count),
{
    let p = address / g;
    let s = stride / g;
    let s2 = (stride % align) / g;
    let residue = (address % align) / g;
    lemma_fundamental_div_mod(address, g);
    lemma_fundamental_div_mod(stride, g);
    assert(p >= 0 && s >= 0) by (nonlinear_arith)
        requires
            address == g * p,
            stride == g * s,
            address >= 0,
            stride >= 0,
            g > 0,
    ;
    lemma_quotient_of_remainder(address, g, reduced);
    lemma_quotient_of_remainder(stride, g, reduced);
    // the reduced stride is inverted by `inverse`
    lemma_congruent_sym(s2, s, reduced);
    lemma_congruent_mul(s, s2, inverse, reduced);
    lemma_congruent_trans(s * inverse, s2 * inverse, 1, reduced);
    // the reduced distance is the negated reduced address
    let k = lemma_congruent_elim(residue, p, reduced);
    assert((reduced - residue) - (reduced - p) == (-k) * reduced) by (nonlinear_arith)
        requires
            residue - p == k * reduced,
    ;
    lemma_congruent_intro(reduced - residue, reduced - p, reduced, -k);
    lemma_congruent_mul(reduced - residue, reduced - p, inverse, reduced);
    lemma_congruent_trans(count, (reduced - residue) * inverse, (reduced - p) * inverse, reduced);
    lemma_solves(p, s, reduced, inverse, count);
    assert(p + count * s >= 0) by (nonlinear_arith)
        requires
            p >= 0,
            s >= 0,
            count >= 0,
    ;
    lemma_reduce(p, s, reduced, g, count);
    assert(aligns(address, stride, align, count));
    assert forall|fewer: int| 0 <= fewer < count implies !#[trigger] aligns(
        address,
        stride,
        align,
        fewer,
    ) by {
        if aligns(address, stride, align, fewer) {
            assert(p + fewer * s >= 0) by (nonlinear_arith)
                requires
                    p >= 0,
                    s >= 0,
                    fewer >= 0,
            ;
            lemma_reduce(p, s, reduced, g, fewer);
            lemma_unique(p, s, reduced, inverse, count, fewer);
            lemma_congruent_small(count, fewer, reduced);
        }
    }
}

} // verus!
