use align_offset::bits::{check_power_of_two, trailing_zeros};
use align_offset::{
    align_offset, checked_align_offset, mod_inv, mod_pow_2_inv, scan_offset, solve_congruence,
    UNREACHABLE,
};

const TOP: usize = 1 << (usize::BITS - 1);

#[test]
fn aligned_address_needs_no_elements() {
    for stride in [0usize, 1, 2, 3, 24, 4096, usize::MAX] {
        assert_eq!(align_offset(0, stride, 16), 0);
        assert_eq!(align_offset(32, stride, 16), 0);
        assert_eq!(align_offset(TOP, stride, TOP), 0);
        assert_eq!(align_offset(12345, stride, 1), 0);
    }
}

#[test]
fn aligned_address_comes_before_zero_stride() {
    assert_eq!(align_offset(64, 0, 64), 0);
    assert_eq!(scan_offset(64, 0, 64), 0);
}

#[test]
fn zero_stride_never_aligns() {
    assert_eq!(align_offset(5, 0, 16), usize::MAX);
    assert_eq!(align_offset(1, 0, 2), UNREACHABLE);
    assert_eq!(align_offset(usize::MAX, 0, TOP), UNREACHABLE);
    assert_eq!(scan_offset(5, 0, 16), UNREACHABLE);
}

#[test]
fn unit_stride_is_byte_distance() {
    assert_eq!(align_offset(5, 1, 16), 11);
    assert_eq!(align_offset(17, 1, 16), 15);
    assert_eq!(align_offset(1, 1, TOP), TOP - 1);
    assert_eq!(align_offset(usize::MAX, 1, 4096), 1);
    for address in 1usize..64 {
        if address % 8 != 0 {
            assert_eq!(align_offset(address, 1, 8), 8 - address % 8);
        }
    }
}

#[test]
fn stride_of_24_to_16() {
    let got = align_offset(8, 24, 16);
    assert_eq!(got, scan_offset(8, 24, 16));
    assert_eq!(got, 1);
    assert_eq!(solve_congruence(8, 24, 16), 1);
}

#[test]
fn stride_of_3_to_4() {
    let got = align_offset(1, 3, 4);
    assert_eq!(got, scan_offset(1, 3, 4));
    assert_eq!(got, 1);
}

#[test]
fn common_divisor_obstructs() {
    assert_eq!(align_offset(4, 8, 16), UNREACHABLE);
    assert_eq!(solve_congruence(4, 8, 16), UNREACHABLE);
    assert_eq!(scan_offset(4, 8, 16), UNREACHABLE);
    assert_eq!(align_offset(1, 2, 4), UNREACHABLE);
    assert_eq!(align_offset(3, 32, 16), UNREACHABLE);
    assert_eq!(align_offset(6, 12, 8), UNREACHABLE);
}

#[test]
fn reduced_congruence() {
    // 4 + 12 * o = 0 (mod 16): o = 1 (mod 4)
    assert_eq!(align_offset(4, 12, 16), 1);
    // 8 + 12 * o = 0 (mod 32): 2 + 3 * o = 0 (mod 8), o = 2
    assert_eq!(align_offset(8, 12, 32), 2);
    // 1 + 7 * o = 0 (mod 1024): o = 585
    assert_eq!(align_offset(1, 7, 1024), 585);
}

#[test]
fn finite_offset_aligns_and_is_least() {
    for shift in 0..8 {
        let align = 1usize << shift;
        for address in 0..3 * align {
            for stride in 0usize..20 {
                let got = align_offset(address, stride, align);
                if got != UNREACHABLE {
                    assert!(got < align);
                    assert_eq!((address + got * stride) % align, 0);
                    for fewer in 0..got {
                        assert_ne!((address + fewer * stride) % align, 0);
                    }
                } else {
                    for count in 0..align {
                        assert_ne!((address + count * stride) % align, 0);
                    }
                }
            }
        }
    }
}

#[test]
fn solver_agrees_with_scan() {
    for shift in 0..7 {
        let align = 1usize << shift;
        for address in 0..2 * align {
            for stride in 1usize..40 {
                assert_eq!(
                    solve_congruence(address, stride, align),
                    scan_offset(address, stride, align)
                );
            }
        }
    }
}

#[test]
fn widest_alignment() {
    // 1 + 3 * o = 0 (mod 2^(BITS - 1)): the solution is below the alignment
    // and is not the value that stands for "unreachable".
    let got = align_offset(1, 3, TOP);
    assert_ne!(got, UNREACHABLE);
    assert!(got < TOP);
    assert_eq!(1usize.wrapping_add(got.wrapping_mul(3)) & (TOP - 1), 0);
    assert_eq!(align_offset(usize::MAX, 5, TOP) < TOP, true);
    assert_eq!(align_offset(1, 2, TOP), UNREACHABLE);
}

#[test]
fn large_addresses_and_strides() {
    let got = align_offset(usize::MAX, usize::MAX, 256);
    // -1 + o * -1 = 0 (mod 256): o = 255
    assert_eq!(got, 255);
    assert_eq!(scan_offset(usize::MAX, usize::MAX, 256), 255);
    assert_eq!(align_offset(usize::MAX - 1, usize::MAX - 1, 256), 127);
}

#[test]
fn table_inverses() {
    let expected = [1usize, 11, 13, 7, 9, 3, 5, 15];
    for i in 0..8 {
        let x = 2 * i + 1;
        assert_eq!(mod_pow_2_inv(x, 4), expected[i]);
        assert_eq!(mod_inv(x, 16), expected[i]);
        assert_eq!((x * expected[i]) % 16, 1);
    }
    assert_eq!(mod_inv(3, 4), 3);
    assert_eq!(mod_inv(3, 2), 1);
    assert_eq!(mod_inv(0, 1), 0);
    assert_eq!(mod_inv(5, 8), 5);
}

#[test]
fn lifted_inverses() {
    assert_eq!(mod_inv(7, 256), 183);
    assert_eq!(mod_inv(3, 1 << 16), 43691);
    for mpow in 0..=usize::BITS {
        for x in [1usize, 3, 5, 7, 9, 255, 257, 65537, 0xdead_beef, usize::MAX] {
            let y = mod_pow_2_inv(x, mpow);
            let product = x.wrapping_mul(y);
            if mpow == usize::BITS {
                assert_eq!(product, 1);
            } else if mpow > 0 {
                assert_eq!(product & ((1usize << mpow) - 1), 1);
            }
        }
    }
}

#[test]
fn reduced_inverse_is_below_modulus() {
    for shift in 1..usize::BITS {
        let m = 1usize << shift;
        for x in [1usize, 3, 77, 12345, usize::MAX] {
            let y = mod_inv(x, m);
            assert!(y < m);
            assert_eq!(x.wrapping_mul(y) & (m - 1), 1);
        }
    }
}

#[test]
fn trailing_zero_counts() {
    assert_eq!(trailing_zeros(1), 0);
    assert_eq!(trailing_zeros(8), 3);
    assert_eq!(trailing_zeros(24), 3);
    assert_eq!(trailing_zeros(TOP), usize::BITS - 1);
    assert_eq!(trailing_zeros(usize::MAX), 0);
}

#[test]
fn powers_of_two_are_recognised() {
    assert!(!check_power_of_two(0));
    assert!(check_power_of_two(1));
    assert!(check_power_of_two(2));
    assert!(!check_power_of_two(3));
    assert!(!check_power_of_two(6));
    assert!(!check_power_of_two(TOP + 1));
    assert!(!check_power_of_two(usize::MAX));
    for shift in 0..usize::BITS {
        assert!(check_power_of_two(1usize << shift));
    }
    for shift in 0..usize::BITS - 1 {
        assert_eq!(check_power_of_two(3usize << shift), false);
    }
    for a in 0usize..5000 {
        assert_eq!(check_power_of_two(a), a.is_power_of_two());
    }
}

#[test]
fn checked_offset_refuses_other_alignments() {
    assert_eq!(checked_align_offset(5, 1, 12), None);
    assert_eq!(checked_align_offset(0, 1, 0), None);
    assert_eq!(checked_align_offset(5, 1, 16), Some(11));
    assert_eq!(checked_align_offset(5, 0, 16), Some(UNREACHABLE));
    assert_eq!(checked_align_offset(8, 24, 16), Some(1));
}
