use align_offset::{align_offset, scan_offset};

fn test_weird_stride(ptr: usize, stride: usize, align: usize) -> bool {
    let mut expected = usize::max_value();
    // Naive but definitely correct way to find the *first* aligned element of the stride.
    for el in 0..align {
        if (ptr + el * stride) % align == 0 {
            expected = el;
            break;
        }
    }
    let mut ret = false;
    let got = [align_offset(ptr, stride, align), scan_offset(ptr, stride, align)];
    for i in 0..got.len() {
        if got[i] != expected {
            println!(
                "align_offset_v{}: aligning {:x} (with stride of {}) to {}, expected {}, got {}",
                i, ptr, stride, align, expected, got[i]
            );
            ret |= true;
        }
    }
    ret
}

#[test]
fn align_offset_weird_strides() {
    // For strides other than 1, the algorithm is held against the most naive
    // implementation possible.
    let mut align = 1;
    let mut x = false;
    while align < 1024 {
        for ptr in 1usize..4 * align {
            for stride in 3..11 {
                x |= test_weird_stride(ptr, stride, align);
            }
        }
        align = (align + 1).next_power_of_two();
    }
    assert!(!x);
}
