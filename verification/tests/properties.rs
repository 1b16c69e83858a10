use buddy_alloc::buddy_alloc::{BuddyAlloc, BuddyAllocParam};
use buddy_alloc::freelist_alloc::{FreelistAlloc, FreelistAllocParam, BLOCK_SIZE};
use buddy_alloc::non_threadsafe_alloc::NonThreadsafeAlloc;

const HEAP_SIZE: usize = 1024 * 1024;
const LEAF_SIZE: usize = 16;
const HEAP_BASE: usize = 1 << 24;
const FREELIST_BASE: usize = 1 << 20;

fn fresh_buddy() -> BuddyAlloc {
    BuddyAlloc::new(BuddyAllocParam::new(HEAP_BASE, HEAP_SIZE, LEAF_SIZE))
}

#[test]
fn fill_and_drain_counts_match() {
    let mut allocator = fresh_buddy();
    let mut ptrs = Vec::new();
    while let Some(p) = allocator.allocate(LEAF_SIZE, 1) {
        ptrs.push(p);
    }
    let count_first = ptrs.len();
    for p in ptrs.drain(..) {
        allocator.deallocate(p, LEAF_SIZE, 1);
    }
    while let Some(p) = allocator.allocate(LEAF_SIZE, 1) {
        ptrs.push(p);
    }
    let count_second = ptrs.len();
    assert_eq!(count_first, count_second);
    assert!(count_first > 0);
}

#[test]
fn small_then_large_then_free_restores_available() {
    let mut allocator = fresh_buddy();
    let initial = allocator.available_bytes();
    let p1 = allocator.allocate(32, 1).unwrap();
    allocator.deallocate(p1, 32, 1);
    let p2 = allocator.allocate(40961, 1).unwrap();
    let p3 = allocator.allocate(1381, 1).unwrap();
    allocator.deallocate(p2, 40961, 1);
    allocator.deallocate(p3, 1381, 1);
    assert_eq!(allocator.available_bytes(), initial);
}

#[test]
fn round_trip_same_layout_same_result() {
    let mut allocator = fresh_buddy();
    let before = allocator.available_bytes();
    let p1 = allocator.allocate(4096, 1).unwrap();
    allocator.deallocate(p1, 4096, 1);
    assert_eq!(allocator.available_bytes(), before);
    // the same request is served again, from the same block
    let p2 = allocator.allocate(4096, 1).unwrap();
    assert_eq!(p1, p2);
}

#[test]
fn allocation_spans_disjoint() {
    let mut allocator = fresh_buddy();
    let a = allocator.allocate(100, 1).unwrap();
    let b = allocator.allocate(100, 1).unwrap();
    let c = allocator.allocate(1000, 1).unwrap();
    // each serving block is at least as large as its request
    assert!(a + 100 <= b || b + 100 <= a);
    assert!(a + 100 <= c || c + 1000 <= a);
    assert!(b + 100 <= c || c + 1000 <= b);
    assert!(a >= HEAP_BASE && a + 100 <= HEAP_BASE + HEAP_SIZE);
    assert!(c >= HEAP_BASE && c + 1000 <= HEAP_BASE + HEAP_SIZE);
}

#[test]
fn writes_read_back() {
    let mut allocator = fresh_buddy();
    let p = allocator.allocate(256, 1).unwrap();
    for off in 0..256 {
        allocator.write_byte(p + off, (off % 251) as u8);
    }
    for off in 0..256 {
        assert_eq!(allocator.read_byte(p + off), (off % 251) as u8);
    }
}

#[test]
fn available_bounded_by_heap() {
    let mut allocator = fresh_buddy();
    let initial = allocator.available_bytes();
    assert!(initial <= HEAP_SIZE);
    let p = allocator.allocate(1024, 1).unwrap();
    assert_eq!(allocator.available_bytes(), initial - 1024);
    allocator.deallocate(p, 1024, 1);
    assert_eq!(allocator.available_bytes(), initial);
}

#[test]
fn largest_block_request_succeeds_when_fresh() {
    let mut allocator = fresh_buddy();
    // the largest power-of-two block of a fresh region is half the heap
    let p = allocator.allocate(524288, 1);
    assert!(p.is_some());
}

#[test]
fn one_byte_more_than_available_fails() {
    let mut allocator = fresh_buddy();
    let available = allocator.available_bytes();
    assert!(allocator.allocate(available + 1, 1).is_none());
}

#[test]
fn zero_size_request_is_served_as_one_leaf() {
    let mut allocator = fresh_buddy();
    let initial = allocator.available_bytes();
    let p = allocator.allocate(0, 1);
    assert!(p.is_some());
    assert_eq!(allocator.available_bytes(), initial - LEAF_SIZE);
    allocator.deallocate(p.unwrap(), 0, 1);
    assert_eq!(allocator.available_bytes(), initial);
}

#[test]
fn freelist_pointers_aligned_to_base() {
    let mut allocator = FreelistAlloc::new(FreelistAllocParam::new(FREELIST_BASE, 4096));
    for _ in 0..64 {
        let p = allocator.allocate(1, 1).unwrap();
        assert_eq!((p - FREELIST_BASE) % BLOCK_SIZE, 0);
    }
}

#[test]
fn freelist_exhaustion_then_free_and_reuse() {
    let mut allocator = FreelistAlloc::new(FreelistAllocParam::new(FREELIST_BASE, 4096));
    let mut ptrs = Vec::new();
    for _ in 0..64 {
        let p = allocator.allocate(64, 1);
        assert!(p.is_some());
        ptrs.push(p.unwrap());
    }
    assert!(allocator.allocate(64, 1).is_none());
    for p in ptrs {
        allocator.deallocate(p, 64, 1);
    }
    for _ in 0..64 {
        assert!(allocator.allocate(64, 1).is_some());
    }
}

#[test]
fn dispatcher_routes_overflow_to_buddy() {
    // the freelist region holds 64 slots; the 65th small request must be
    // served by the buddy region
    let fp = FreelistAllocParam::new(FREELIST_BASE, 4096);
    let bp = BuddyAllocParam::new(HEAP_BASE, HEAP_SIZE, LEAF_SIZE);
    let mut alloc = NonThreadsafeAlloc::new(fp, bp);
    let mut ptrs = Vec::new();
    for _ in 0..64 {
        let p = alloc.allocate(32, 1).unwrap();
        assert!(p >= FREELIST_BASE && p < FREELIST_BASE + 4096);
        ptrs.push(p);
    }
    let overflow = alloc.allocate(32, 1).unwrap();
    assert!(overflow >= HEAP_BASE && overflow < HEAP_BASE + HEAP_SIZE);
    ptrs.push(overflow);
    for p in ptrs {
        alloc.deallocate(p, 32, 1);
    }
}

#[test]
fn dispatcher_routes_large_requests_to_buddy() {
    let fp = FreelistAllocParam::new(FREELIST_BASE, 4096);
    let bp = BuddyAllocParam::new(HEAP_BASE, HEAP_SIZE, LEAF_SIZE);
    let mut alloc = NonThreadsafeAlloc::new(fp, bp);
    let p = alloc.allocate(BLOCK_SIZE + 1, 1).unwrap();
    assert!(p >= HEAP_BASE && p < HEAP_BASE + HEAP_SIZE);
    alloc.deallocate(p, BLOCK_SIZE + 1, 1);
    // a small request still prefers the freelist region
    let q = alloc.allocate(8, 1).unwrap();
    assert!(q >= FREELIST_BASE && q < FREELIST_BASE + 4096);
    alloc.deallocate(q, 8, 1);
}

#[test]
fn dispatcher_fails_only_when_both_tiers_fail() {
    // a freelist region and a tiny buddy region
    let fp = FreelistAllocParam::new(FREELIST_BASE, 4096);
    let bp = BuddyAllocParam::new(HEAP_BASE, 256 * LEAF_SIZE, LEAF_SIZE);
    let mut alloc = NonThreadsafeAlloc::new(fp, bp);
    let mut ptrs = Vec::new();
    loop {
        match alloc.allocate(64, 1) {
            Some(p) => ptrs.push(p),
            None => break,
        }
    }
    // both tiers are exhausted for this size
    assert!(alloc.allocate(64, 1).is_none());
    // freeing one slot makes the request succeed again
    let p = ptrs.pop().unwrap();
    alloc.deallocate(p, 64, 1);
    assert!(alloc.allocate(64, 1).is_some());
}

#[test]
fn gap_pattern_repeats_after_full_free() {
    let mut allocator = fresh_buddy();
    let initial = allocator.available_bytes();
    for _round in 0..3 {
        let mut ptrs = Vec::new();
        // consume about three quarters of the capacity alternating sizes
        while allocator.available_bytes() > initial / 4 {
            ptrs.push(allocator.allocate(LEAF_SIZE, 1).unwrap());
            ptrs.push(allocator.allocate(2 * LEAF_SIZE, 1).unwrap());
        }
        for p in ptrs {
            allocator.deallocate(p, 1, 1);
        }
        assert_eq!(allocator.available_bytes(), initial);
    }
}
