//! Alignment offsets for strided memory.
//!
//! Given an address, an element stride and a power-of-two alignment, the
//! library computes the least number of elements by which the address has to
//! be advanced for it to become a multiple of the alignment, or reports that no
//! number of elements gets there.
//!
//! * [`congruence`] holds the rules for calculating with congruences.
//! * [`bits`] relates masks, shifts and trailing-zero counts to powers of two.
//! * [`inverse`] computes multiplicative inverses modulo a power of two.
//! * [`linear`] states what it means for a number of elements to align an
//!   address, and proves how the linear congruence behind it is solved.
//! * [`offset`] holds the solver itself, and a scan that solves the same
//!   problem by trying every candidate.

pub mod bits;
pub mod congruence;
pub mod inverse;
pub mod linear;
pub mod offset;

pub use crate::inverse::{mod_inv, mod_pow_2_inv};
pub use crate::offset::{
    align_offset,
    checked_align_offset,
    scan_offset,
    solve_congruence,
    UNREACHABLE,
};
