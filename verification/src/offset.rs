//! The number of elements by which an address has to be advanced to be aligned.

use vstd::prelude::*;
use vstd::arithmetic::power2::{lemma_pow2_pos, lemma_pow2_unfold, pow2};
use crate::bits::{
    check_power_of_two,
    is_power_of_two,
    lemma_exponent_fits,
    lemma_mask_is_rem,
    lemma_pow2_divides,
    lemma_power_of_two_exponent,
    lemma_shl_one,
    lemma_shr_is_div,
    lemma_word_modulus,
    trailing_zeros,
    word_modulus,
};
use crate::congruence::{
    congruent,
    lemma_congruent_add,
    lemma_congruent_elim,
    lemma_congruent_intro,
    lemma_congruent_rem,
    lemma_congruent_same_rem,
    lemma_congruent_trans,
    lemma_congruent_weaken,
};
use crate::inverse::mod_pow_2_inv;
use crate::linear::{
    aligns,
    is_least_offset,
    lemma_aligned,
    lemma_least_offset,
    lemma_never_aligns,
    lemma_obstruction,
    lemma_quotient_of_remainder,
    lemma_unit_stride,
    lemma_zero_stride,
    never_aligns,
};

verus! {

/// The result that stands for "no number of elements aligns the address".
pub const UNREACHABLE: usize = usize::MAX;

/// What an offset has to be for an address, a stride and an alignment: the
/// least number of elements that aligns the address, which is then below the
/// alignment, or `UNREACHABLE` where there is none.
pub open spec fn is_align_offset(address: usize, stride: usize, align: usize, offset: usize) -> bool {
    if never_aligns(address as int, stride as int, align as int) {
        offset == UNREACHABLE
    } else {
        &&& offset < align
        &&& is_least_offset(address as int, stride as int, align as int, offset as int)
    }
}

/// Solves `address + offset * stride = 0 (mod align)` for the least `offset`,
/// for a stride that is not zero.
///
/// Stride and alignment are divided by their greatest common divisor, a power
/// of two. If that does not divide the address there is no solution.
/// Otherwise the reduced stride has an inverse modulo the reduced alignment,
/// and the solution is the reduced distance to alignment times that inverse.
pub fn solve_congruence(address: usize, stride: usize, align: usize) -> (offset: usize)
    requires
        is_power_of_two(align as int),
        stride != 0,
    ensures
        is_align_offset(address, stride, align, offset),
{
    let ghost k: nat = choose|k: nat| align as int == pow2(k);
    proof {
        lemma_pow2_pos(k);
        lemma_exponent_fits(align, k);
        lemma_mask_is_rem(address, align, k);
        lemma_mask_is_rem(stride, align, k);
    }
    let a_minus_one: usize = align - 1;
    let pmoda: usize = address & a_minus_one;
    let smoda: usize = stride & a_minus_one;
    let apow: u32 = trailing_zeros(align);
    let spow: u32 = trailing_zeros(stride);
    let gcdpow: u32 = if spow < apow { spow } else { apow };
    proof {
        lemma_power_of_two_exponent(k, apow as nat);
        lemma_shl_one(gcdpow);
        lemma_pow2_pos(gcdpow as nat);
        lemma_pow2_divides(gcdpow as nat, apow as nat);
        lemma_pow2_divides(gcdpow as nat, spow as nat);
    }
    let gcd: usize = 1usize << gcdpow;
    let ghost reduced: int = pow2((apow - gcdpow) as nat) as int;
    proof {
        lemma_mask_is_rem(address, gcd, gcdpow as nat);
        lemma_pow2_pos((apow - gcdpow) as nat);
        lemma_pow2_pos(spow as nat);
        // the common divisor divides the stride
        lemma_congruent_weaken(stride as int, 0, pow2(spow as nat) as int, gcd as int);
    }
    if address & (gcd - 1) == 0 {
        proof {
            lemma_shr_is_div(align, gcdpow);
            lemma_shr_is_div(smoda, gcdpow);
            lemma_shr_is_div(pmoda, gcdpow);
            lemma_quotient_of_remainder(address as int, gcd as int, reduced);
            lemma_quotient_of_remainder(stride as int, gcd as int, reduced);
        }
        let a2: usize = align >> gcdpow;
        let s2: usize = smoda >> gcdpow;
        let distance: usize = a2 - (pmoda >> gcdpow);
        proof {
            if gcdpow < apow {
                // the reduced alignment is even, the stride's odd part is odd
                lemma_pow2_unfold((apow - gcdpow) as nat);
                let half = pow2((apow - gcdpow - 1) as nat) as int;
                let odd = stride as int / gcd as int;
                let c = lemma_congruent_elim(s2 as int, odd, reduced);
                assert(s2 == odd + 2 * (c * half)) by (nonlinear_arith)
                    requires
                        s2 - odd == c * reduced,
                        reduced == 2 * half,
                ;
            }
        }
        let inverse: usize = mod_pow_2_inv(s2, apow - gcdpow);
        let offset: usize = distance.wrapping_mul(inverse) & (a2 - 1);
        proof {
            let product = distance.wrapping_mul(inverse);
            lemma_mask_is_rem(product, a2, (apow - gcdpow) as nat);
            lemma_word_modulus();
            lemma_pow2_divides((apow - gcdpow) as nat, usize::BITS as nat);
            lemma_congruent_rem(distance * inverse, word_modulus());
            lemma_congruent_weaken(product as int, distance * inverse, word_modulus(), reduced);
            lemma_congruent_rem(product as int, reduced);
            lemma_congruent_trans(offset as int, product as int, distance * inverse, reduced);
            lemma_congruent_same_rem(s2 * inverse, 1, reduced);
            lemma_least_offset(
                address as int,
                stride as int,
                align as int,
                gcd as int,
                reduced,
                inverse as int,
                offset as int,
            );
        }
        return offset;
    }
    proof {
        assert forall|count: int| 0 <= count implies !#[trigger] aligns(
            address as int,
            stride as int,
            align as int,
            count,
        ) by {
            if aligns(address as int, stride as int, align as int, count) {
                lemma_obstruction(address as int, stride as int, align as int, gcd as int, count);
            }
        }
    }
    UNREACHABLE
}

/// The least number of elements of `stride` bytes by which `address` has to be
/// advanced to become a multiple of `align`, or `UNREACHABLE` if no number of
/// elements gets there.
///
/// An address that is aligned needs no elements, whatever the stride. One that
/// is not aligned stays so with a stride of zero, and with a stride of one it
/// needs as many elements as there are bytes up to the next multiple of
/// `align`.
pub fn align_offset(address: usize, stride: usize, align: usize) -> (offset: usize)
    requires
        is_power_of_two(align as int),
    ensures
        is_align_offset(address, stride, align, offset),
        offset == UNREACHABLE <==> never_aligns(address as int, stride as int, align as int),
        offset != UNREACHABLE ==> offset < align && aligns(
            address as int,
            stride as int,
            align as int,
            offset as int,
        ),
        forall|fewer: int|
            0 <= fewer < offset ==> !#[trigger] aligns(
                address as int,
                stride as int,
                align as int,
                fewer,
            ),
        address % align == 0 ==> offset == 0,
        address % align != 0 && stride == 0 ==> offset == UNREACHABLE,
        address % align != 0 && stride == 1 ==> offset == align - address % align,
{
    let ghost k: nat = choose|k: nat| align as int == pow2(k);
    proof {
        lemma_pow2_pos(k);
        lemma_mask_is_rem(address, align, k);
    }
    let a_minus_one: usize = align - 1;
    let pmoda: usize = address & a_minus_one;
    if pmoda == 0 {
        proof {
            lemma_aligned(address as int, stride as int, align as int);
        }
        return 0;
    }
    if stride <= 1 {
        return if stride == 0 {
            proof {
                lemma_zero_stride(address as int, align as int);
            }
            UNREACHABLE
        } else {
            proof {
                lemma_unit_stride(address as int, align as int);
            }
            align - pmoda
        };
    }
    solve_congruence(address, stride, align)
}

/// `align_offset` for an alignment that is not known to be a power of two:
/// `None` if it is none, and the offset otherwise.
pub fn checked_align_offset(address: usize, stride: usize, align: usize) -> (result: Option<usize>)
    ensures
        result.is_some() == is_power_of_two(align as int),
        result.is_some() ==> is_align_offset(address, stride, align, result.unwrap()),
{
    if check_power_of_two(align) {
        Some(align_offset(address, stride, align))
    } else {
        None
    }
}

/// The same offset as `align_offset`, found by trying 0, 1, 2, .. in turn.
///
/// The sums are taken in wrapping arithmetic: the alignment divides the number
/// of values of a word, so wrapping does not change a remainder modulo it. No
/// candidate from the alignment on needs trying, since the remainders repeat
/// with that period.
pub fn scan_offset(address: usize, stride: usize, align: usize) -> (offset: usize)
    requires
        is_power_of_two(align as int),
    ensures
        is_align_offset(address, stride, align, offset),
{
    let ghost k: nat = choose|k: nat| align as int == pow2(k);
    proof {
        lemma_pow2_pos(k);
        lemma_exponent_fits(align, k);
        lemma_word_modulus();
        lemma_pow2_divides(k, usize::BITS as nat);
    }
    let mut count: usize = 0;
    while count < align
        invariant
            align as int == pow2(k),
            align > 0,
            count <= align,
            word_modulus() % (align as int) == 0,
            forall|fewer: int|
                0 <= fewer < count ==> !#[trigger] aligns(
                    address as int,
                    stride as int,
                    align as int,
                    fewer,
                ),
        decreases align - count,
    {
        let reached: usize = address.wrapping_add(count.wrapping_mul(stride));
        proof {
            lemma_wrapping_sum(address, stride, count);
            lemma_congruent_weaken(
                reached as int,
                address + count * stride,
                word_modulus(),
                align as int,
            );
            lemma_congruent_same_rem(reached as int, address + count * stride, align as int);
            lemma_mask_is_rem(reached, align, k);
        }
        if reached & (align - 1) == 0 {
            assert(aligns(address as int, stride as int, align as int, count as int));
            return count;
        }
        count += 1;
    }
    proof {
        lemma_never_aligns(address as int, stride as int, align as int);
    }
    UNREACHABLE
}

/// The address reached after `count` elements, computed in wrapping
/// arithmetic, is the one over the integers modulo the number of values of a
/// word.
pub proof fn lemma_wrapping_sum(address: usize, stride: usize, count: usize)
    ensures
        congruent(
            address.wrapping_add(count.wrapping_mul(stride)) as int,
            address + count * stride,
            word_modulus(),
        ),
{
    let w = word_modulus();
    let product = count.wrapping_mul(stride);
    let sum = address.wrapping_add(product);
    lemma_congruent_rem(count * stride, w);
    if address + product > usize::MAX {
        lemma_congruent_intro(sum as int, address + product, w, -1);
    } else {
        lemma_congruent_intro(sum as int, address + product, w, 0);
    }
    lemma_congruent_intro(address as int, address as int, w, 0);
    lemma_congruent_add(address as int, address as int, product as int, count * stride, w);
    lemma_congruent_trans(sum as int, address + product, address + count * stride, w);
}

/// An address, a stride and an alignment have one offset.
pub proof fn lemma_offset_unique(
    address: usize,
    stride: usize,
    align: usize,
    first: usize,
    second: usize,
)
    requires
        is_align_offset(address, stride, align, first),
        is_align_offset(address, stride, align, second),
    ensures
        first == second,
{
}

/// The offset of an aligned address is zero, whatever the stride.
pub proof fn lemma_offset_of_aligned(address: usize, stride: usize, align: usize, offset: usize)
    requires
        align > 0,
        address % align == 0,
        is_align_offset(address, stride, align, offset),
    ensures
        offset == 0,
{
    lemma_aligned(address as int, stride as int, align as int);
}

/// With a stride of zero, an address that is not aligned has no offset.
pub proof fn lemma_offset_of_zero_stride(address: usize, align: usize, offset: usize)
    requires
        align > 0,
        address % align != 0,
        is_align_offset(address, 0, align, offset),
    ensures
        offset == UNREACHABLE,
{
    lemma_zero_stride(address as int, align as int);
}

/// With a stride of one, the offset of an address that is not aligned is the
/// number of bytes up to the next multiple of the alignment.
pub proof fn lemma_offset_of_unit_stride(address: usize, align: usize, offset: usize)
    requires
        align > 0,
        address % align != 0,
        is_align_offset(address, 1, align, offset),
    ensures
        offset == align - address % align,
{
    lemma_unit_stride(address as int, align as int);
}

/// An offset other than `UNREACHABLE` is below the alignment, aligns the
/// address, and no smaller number of elements does; `UNREACHABLE` is the
/// offset only where no number of elements aligns the address.
pub proof fn lemma_offset_meaning(address: usize, stride: usize, align: usize, offset: usize)
    requires
        is_align_offset(address, stride, align, offset),
    ensures
        offset == UNREACHABLE <==> never_aligns(address as int, stride as int, align as int),
        offset != UNREACHABLE ==> offset < align && is_least_offset(
            address as int,
            stride as int,
            align as int,
            offset as int,
        ),
{
}

} // verus!
