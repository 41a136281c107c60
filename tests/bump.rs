use rust_os::allocator::bump::BumpAllocator;
use rust_os::allocator::{AllocError, HEAP_SIZE, HEAP_START};

fn bump_at(start: usize, size: usize) -> BumpAllocator {
    let mut b = BumpAllocator::empty();
    b.init(start, size);
    b
}

#[test]
fn bump_serves_at_aligned_cursor() {
    let mut b = bump_at(0x1000, 64);
    assert_eq!(b.allocate(3, 1), Ok(0x1000));
    assert_eq!(b.allocate(8, 8), Ok(0x1008));
    assert_eq!(b.allocate(4, 4), Ok(0x1010));
}

#[test]
fn bump_blocks_never_overlap() {
    let mut b = bump_at(0x10_0000, 4096);
    let reqs = [(10usize, 1usize), (7, 8), (32, 32), (1, 2), (100, 16), (5, 4)];
    let mut blocks = Vec::new();
    for (size, align) in reqs {
        let a = b.allocate(size, align).unwrap();
        assert_eq!(a % align, 0);
        assert!(a >= 0x10_0000 && a + size <= 0x10_0000 + 4096);
        blocks.push((a, size));
    }
    for i in 0..blocks.len() {
        for j in (i + 1)..blocks.len() {
            assert!(blocks[i].0 + blocks[i].1 <= blocks[j].0);
        }
    }
}

#[test]
fn bump_failure_keeps_cursor() {
    let mut b = bump_at(0x2000, 100);
    assert_eq!(b.allocate(40, 1), Ok(0x2000));
    assert_eq!(b.allocate(61, 1), Err(AllocError::OutOfSpace));
    assert_eq!(b.allocate(60, 1), Ok(0x2028));
    assert_eq!(b.allocate(1, 1), Err(AllocError::OutOfSpace));
}

#[test]
fn bump_full_reclaim() {
    let mut b = bump_at(0x3000, 256);
    let mut addrs = Vec::new();
    for _ in 0..5 {
        addrs.push(b.allocate(16, 8).unwrap());
    }
    assert_eq!(addrs[4], 0x3040);
    for a in addrs {
        b.deallocate(a, 16, 8);
    }
    assert_eq!(b.allocate(16, 8), Ok(0x3000));
}

#[test]
fn bump_one_live_block_blocks_reclaim() {
    let mut b = bump_at(0x3000, 64);
    let first = b.allocate(16, 8).unwrap();
    let second = b.allocate(16, 8).unwrap();
    b.deallocate(second, 16, 8);
    assert_eq!(b.allocate(16, 8), Ok(0x3020));
    b.deallocate(first, 16, 8);
    assert_eq!(b.allocate(32, 8), Err(AllocError::OutOfSpace));
}

#[test]
fn bump_address_overflow() {
    let mut b = bump_at(usize::MAX - 16, 16);
    assert_eq!(b.allocate(32, 1), Err(AllocError::AddressOverflow));
    assert_eq!(b.allocate(0, 1usize << 63), Err(AllocError::AddressOverflow));
    assert_eq!(b.allocate(16, 1), Ok(usize::MAX - 16));
}

#[test]
fn bump_empty_allocator_has_no_room() {
    let mut b = BumpAllocator::empty();
    assert_eq!(b.allocate(1, 1), Err(AllocError::OutOfSpace));
}

#[test]
fn bump_end_to_end_heap() {
    let start = HEAP_START as usize;
    let mut b = bump_at(start, HEAP_SIZE);
    let mut prev_end = start;
    for i in 0..6400usize {
        let a = b.allocate(16, 8).unwrap();
        assert_eq!(a, start + 16 * i);
        assert!(a >= prev_end);
        prev_end = a + 16;
    }
    assert_eq!(prev_end, start + 102400);
    assert_eq!(b.allocate(16, 8), Err(AllocError::OutOfSpace));
}

#[test]
fn bump_counts_outstanding_allocations() {
    let mut b = BumpAllocator::empty();
    assert!(!b.is_initialized());
    b.init(0x4000, 64);
    assert!(b.is_initialized());
    assert_eq!(b.outstanding(), 0);
    let a = b.allocate(8, 8).unwrap();
    assert_eq!(b.outstanding(), 1);
    assert_eq!(b.allocate(100, 8), Err(AllocError::OutOfSpace));
    assert_eq!(b.outstanding(), 1);
    b.deallocate(a, 8, 8);
    assert_eq!(b.outstanding(), 0);
}
