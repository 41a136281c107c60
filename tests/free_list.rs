use rust_os::allocator::linked_list::{LinkedListAllocator, ListNode, MIN_REGION_SIZE};
use rust_os::allocator::AllocError;

fn list_at(start: usize, size: usize) -> LinkedListAllocator {
    let mut l = LinkedListAllocator::empty();
    l.init(start, size);
    l
}

#[test]
fn free_list_whole_heap_after_init() {
    let mut l = list_at(0x8000, 1000);
    assert_eq!(l.allocate(1001, 1), Err(AllocError::Unsatisfiable));
    assert_eq!(l.allocate(1000, 1), Ok(0x8000));
    assert_eq!(l.allocate(1, 1), Err(AllocError::Unsatisfiable));
}

#[test]
fn free_list_reuse_after_free() {
    let mut l = list_at(0x8008, 512);
    let a = l.allocate(40, 64).unwrap();
    assert_eq!(a, 0x8040);
    l.deallocate(a, 40, 64);
    assert_eq!(l.allocate(40, 64), Ok(a));
}

#[test]
fn free_list_adjacent_frees_merge() {
    let mut l = list_at(0x9000, 96);
    let a = l.allocate(32, 8).unwrap();
    let b = l.allocate(32, 8).unwrap();
    let c = l.allocate(32, 8).unwrap();
    assert_eq!((a, b, c), (0x9000, 0x9020, 0x9040));
    assert_eq!(l.allocate(1, 1), Err(AllocError::Unsatisfiable));
    l.deallocate(a, 32, 8);
    l.deallocate(b, 32, 8);
    assert_eq!(l.allocate(64, 8), Ok(0x9000));
}

#[test]
fn free_list_adjacent_frees_merge_reverse_order() {
    let mut l = list_at(0x9000, 96);
    let a = l.allocate(32, 8).unwrap();
    let b = l.allocate(32, 8).unwrap();
    let _c = l.allocate(32, 8).unwrap();
    l.deallocate(b, 32, 8);
    l.deallocate(a, 32, 8);
    assert_eq!(l.allocate(64, 8), Ok(0x9000));
}

#[test]
fn free_list_first_fit_in_list_order() {
    let mut l = list_at(0xa000, 256);
    let a = l.allocate(64, 8).unwrap();
    let _b = l.allocate(32, 8).unwrap();
    let c = l.allocate(64, 8).unwrap();
    let _d = l.allocate(96, 8).unwrap();
    assert_eq!(l.allocate(1, 1), Err(AllocError::Unsatisfiable));
    l.deallocate(a, 64, 8);
    l.deallocate(c, 64, 8);
    // the block freed last is at the head of the list
    assert_eq!(l.allocate(16, 8), Ok(c));
    assert_eq!(l.allocate(48, 8), Ok(c + 16));
    assert_eq!(l.allocate(64, 8), Ok(a));
}

#[test]
fn free_list_small_slack_is_absorbed() {
    let mut l = list_at(0xb000, 40);
    assert_eq!(l.allocate(30, 1), Ok(0xb000));
    // the 10 bytes left over are smaller than a region record
    assert!(40 - 30 < MIN_REGION_SIZE);
    assert_eq!(l.allocate(1, 1), Err(AllocError::Unsatisfiable));
}

#[test]
fn free_list_leading_slack_is_kept() {
    let mut l = list_at(0xc000, 128);
    assert_eq!(l.allocate(16, 64), Ok(0xc000));
    assert_eq!(l.allocate(16, 64), Ok(0xc040));
    // the slack between the two blocks is still free
    assert_eq!(l.allocate(48, 1), Ok(0xc010));
}

#[test]
fn free_list_failure_changes_nothing() {
    let mut l = list_at(0xd000, 64);
    assert_eq!(l.allocate(65, 1), Err(AllocError::Unsatisfiable));
    assert_eq!(l.allocate(64, 1), Ok(0xd000));
}

#[test]
fn free_list_empty_allocator_is_unsatisfiable() {
    let mut l = LinkedListAllocator::empty();
    assert_eq!(l.allocate(0, 1), Err(AllocError::Unsatisfiable));
}

#[test]
fn list_node_bounds() {
    let n = ListNode::new(0x100, 0x40);
    assert_eq!(n.start_addr(), 0x100);
    assert_eq!(n.end_addr(), 0x140);
}

#[test]
fn free_list_block_bounds() {
    let mut l = LinkedListAllocator::empty();
    assert!(!l.is_initialized());
    assert!(!l.contains_block(0, 0));
    l.init(0x1000, 0x100);
    assert!(l.is_initialized());
    assert!(l.contains_block(0x1000, 0x100));
    assert!(l.contains_block(0x10f0, 0x10));
    assert!(!l.contains_block(0x10f0, 0x11));
    assert!(!l.contains_block(0xff8, 0x10));
    assert!(!l.contains_block(usize::MAX, 2));
}

#[test]
fn free_list_live_blocks_never_overlap() {
    let start = 0x10_0000usize;
    let size = 4096usize;
    let mut l = list_at(start, size);
    let mut live: Vec<(usize, usize)> = Vec::new();
    let mut seed: u64 = 12345;
    for _ in 0..2000 {
        seed = seed.wrapping_mul(6364136223846793005).wrapping_add(1442695040888963407);
        let pick = (seed >> 33) as usize;
        if pick % 3 == 0 && !live.is_empty() {
            let (a, n) = live.swap_remove(pick % live.len());
            l.deallocate(a, n, 8);
        } else {
            let n = 1 + pick % 200;
            let align = 1usize << (pick % 5);
            if let Ok(a) = l.allocate(n, align) {
                assert_eq!(a % align, 0);
                assert!(a >= start && a + n <= start + size);
                for &(b, m) in &live {
                    assert!(a + n <= b || b + m <= a);
                }
                live.push((a, n));
            }
        }
    }
}

#[test]
fn free_list_reuse_with_other_free_regions() {
    let mut l = list_at(0xe000, 512);
    let a = l.allocate(64, 8).unwrap();
    let b = l.allocate(64, 8).unwrap();
    let _c = l.allocate(64, 8).unwrap();
    l.deallocate(a, 64, 8);
    // the region freed at `a` stays apart from the rest of the free list
    let d = l.allocate(32, 16).unwrap();
    assert_eq!(d, 0xe000);
    l.deallocate(d, 32, 16);
    assert_eq!(l.allocate(32, 16), Ok(d));
    assert_eq!(b, 0xe040);
}
