use rust_os::allocator::{align_up, checked_align_up, HEAP_SIZE, HEAP_START};

#[test]
fn align_up_rounds_to_next_multiple() {
    assert_eq!(align_up(0, 8), 0);
    assert_eq!(align_up(1, 8), 8);
    assert_eq!(align_up(7, 8), 8);
    assert_eq!(align_up(8, 8), 8);
    assert_eq!(align_up(9, 8), 16);
    assert_eq!(align_up(4097, 4096), 8192);
    assert_eq!(align_up(13, 1), 13);
}

#[test]
fn align_up_properties_on_samples() {
    for p in [1usize, 2, 4, 8, 16, 64, 4096] {
        for a in 0usize..300 {
            let r = align_up(a, p);
            assert!(r >= a);
            assert_eq!(r % p, 0);
            assert!(r - a < p);
        }
    }
}

#[test]
fn checked_align_up_reports_overflow() {
    assert_eq!(checked_align_up(usize::MAX, 8), None);
    assert_eq!(checked_align_up(usize::MAX - 7, 8), Some(usize::MAX - 7));
    assert_eq!(checked_align_up(17, 16), Some(32));
}

#[test]
fn heap_constants() {
    assert_eq!(HEAP_START, 0x4444_4444_0000);
    assert_eq!(HEAP_SIZE, 102400);
}
