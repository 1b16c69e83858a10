use buddy_alloc::buddy_alloc::{block_size, BuddyAlloc, BuddyAllocParam, MIN_LEAF_SIZE_ALIGN};

const HEAP_SIZE: usize = 1024 * 1024;
const LEAF_SIZE: usize = MIN_LEAF_SIZE_ALIGN;
const HEAP_BASE: usize = 1 << 24;

fn with_allocator<F: FnOnce(BuddyAlloc)>(heap_size: usize, leaf_size: usize, f: F) {
    let param = BuddyAllocParam::new(HEAP_BASE, heap_size, leaf_size);
    let allocator = BuddyAlloc::new(param);
    f(allocator);
}

// find a max k that less than n bytes
pub fn first_down_k(n: usize) -> Option<usize> {
    let mut k: usize = 0;
    let mut size = LEAF_SIZE;
    while size < n {
        k += 1;
        size *= 2;
    }
    if size != n {
        k.checked_sub(1)
    } else {
        Some(k)
    }
}

#[test]
fn test_available_bytes() {
    with_allocator(HEAP_SIZE, LEAF_SIZE, |allocator| {
        let available_bytes = allocator.available_bytes();
        assert!(available_bytes > (HEAP_SIZE as f64 * 0.8) as usize);
    });
}

#[test]
fn buddy_alloc_test_basic_malloc() {
    // alloc a min block
    with_allocator(HEAP_SIZE, LEAF_SIZE, |mut allocator| {
        let p = allocator.allocate(512, 8);
        assert!(p.is_some());
        // memory writeable
        let p_addr = p.unwrap();
        allocator.write_byte(p_addr, 42);
        assert_eq!(p_addr, p.unwrap());
        assert_eq!(allocator.read_byte(p_addr), 42);
    });
}

#[test]
fn buddy_alloc_test_multiple_malloc() {
    with_allocator(HEAP_SIZE, LEAF_SIZE, |mut allocator| {
        let mut available_bytes = allocator.available_bytes();
        let mut count = 0;
        // alloc serveral sized blocks
        while available_bytes >= LEAF_SIZE {
            let k = first_down_k(available_bytes - 1).unwrap_or_default();
            let bytes = block_size(k, LEAF_SIZE);
            assert!(allocator.allocate(bytes, 1).is_some());
            available_bytes -= bytes;
            count += 1;
        }
        assert_eq!(count, 11);
    });
}

#[test]
fn buddy_alloc_test_small_size_malloc() {
    with_allocator(HEAP_SIZE, LEAF_SIZE, |mut allocator| {
        let mut available_bytes = allocator.available_bytes();
        while available_bytes >= LEAF_SIZE {
            assert!(allocator.allocate(LEAF_SIZE, 1).is_some());
            available_bytes -= LEAF_SIZE;
        }
        // memory should be drained, we can't allocate even 1 byte
        assert!(allocator.allocate(1, 1).is_none());
    });
}

#[test]
fn buddy_alloc_test_fail_malloc() {
    // not enough memory since we only have HEAP_SIZE bytes,
    // and the allocator itself occupied few bytes
    with_allocator(HEAP_SIZE, LEAF_SIZE, |mut allocator| {
        let p = allocator.allocate(HEAP_SIZE, 1);
        assert!(p.is_none());
    });
}

#[test]
fn buddy_alloc_test_malloc_and_free() {
    fn _test_malloc_and_free(times: usize, heap_size: usize) {
        with_allocator(heap_size, LEAF_SIZE, |mut allocator| {
            for _i in 0..times {
                let mut available_bytes = allocator.available_bytes();
                let mut ptrs = Vec::new();
                let mut layouts = Vec::new();
                // alloc several sized blocks
                while available_bytes >= LEAF_SIZE {
                    let k = first_down_k(available_bytes - 1).unwrap_or_default();
                    let bytes = block_size(k, LEAF_SIZE);
                    let p = allocator.allocate(bytes, 1);
                    assert!(p.is_some());
                    ptrs.push(p.unwrap());
                    layouts.push(bytes);
                    available_bytes -= bytes;
                }
                // space is drained
                assert!(allocator.allocate(1, 1).is_none());
                // free allocated blocks
                for ptr in ptrs {
                    let bytes = layouts.pop().unwrap();
                    allocator.deallocate(ptr, bytes, 1);
                }
            }
        });
    }
    // test with heaps: 1M, 2M, 4M, 8M
    for i in &[1, 2, 4, 8] {
        _test_malloc_and_free(10, i * HEAP_SIZE);
    }
}

#[test]
fn buddy_alloc_test_free_bug() {
    with_allocator(HEAP_SIZE, LEAF_SIZE, |mut allocator| {
        let p1 = allocator.allocate(32, 1).unwrap();
        allocator.deallocate(p1, 32, 1);
        let p2 = allocator.allocate(40961, 1).unwrap();
        let p3 = allocator.allocate(1381, 1).unwrap();
        allocator.deallocate(p2, 40961, 1);
        allocator.deallocate(p3, 1381, 1);
    });
}

#[test]
fn test_malloc_and_free_gap() {
    // malloc 1 k and 2 k alternately, then consumes remain memory
    fn _test_malloc_and_free_gap(times: usize, heap_size: usize, leaf_size: usize) {
        with_allocator(heap_size, leaf_size, |mut allocator| {
            let blocks_num = allocator.available_bytes() / leaf_size;

            for _i in 0..times {
                let mut available_bytes = allocator.available_bytes();
                let mut ptrs = Vec::new();
                // align blocks to n times of 4
                for _j in 0..blocks_num / 4 {
                    // alloc 1 k block
                    let bytes = block_size(1, leaf_size) >> 1;
                    let p = allocator.allocate(bytes, 1);
                    assert!(p.is_some());
                    ptrs.push(p.unwrap());
                    available_bytes -= bytes;
                    // alloc 2 k block
                    let bytes = block_size(2, leaf_size) >> 1;
                    let p = allocator.allocate(bytes, 1);
                    assert!(p.is_some());
                    ptrs.push(p.unwrap());
                    available_bytes -= bytes;
                }

                for _j in 0..blocks_num / 4 {
                    // alloc 1 k block
                    let bytes = block_size(1, leaf_size) >> 1;
                    let p = allocator.allocate(bytes, 1);
                    assert!(p.is_some());
                    ptrs.push(p.unwrap());
                    available_bytes -= bytes;
                }
                // calculate remain blocks
                let remain_blocks = blocks_num - blocks_num / 4 * 4;
                assert_eq!(available_bytes, remain_blocks * leaf_size);
                // space is drained
                for _ in 0..remain_blocks {
                    let p = allocator.allocate(leaf_size, 1);
                    assert!(p.is_some());
                    ptrs.push(p.unwrap());
                }
                assert!(allocator.allocate(1, 1).is_none());
                // free allocated blocks
                for ptr in ptrs {
                    allocator.deallocate(ptr, 1, 1);
                }
            }
        });
    }

    // test with heaps: 1M, 2M, 4M, 8M
    for i in &[1, 2, 4, 8] {
        _test_malloc_and_free_gap(10, i * HEAP_SIZE, LEAF_SIZE);
    }
}

#[test]
fn test_example_bug() {
    // simulate example bug
    with_allocator(HEAP_SIZE, LEAF_SIZE, |mut allocator| {
        let mut ptrs = Vec::new();
        ptrs.push(allocator.allocate(4, 1).unwrap());
        ptrs.push(allocator.allocate(5, 1).unwrap());
        allocator.deallocate(ptrs[0], 1, 1);
        ptrs.push(allocator.allocate(40, 1).unwrap());
        ptrs.push(allocator.allocate(48, 1).unwrap());
        ptrs.push(allocator.allocate(80, 1).unwrap());
        ptrs.push(allocator.allocate(42, 1).unwrap());
        ptrs.push(allocator.allocate(13, 1).unwrap());
        ptrs.push(allocator.allocate(8, 1).unwrap());
        ptrs.push(allocator.allocate(24, 1).unwrap());
        ptrs.push(allocator.allocate(16, 1).unwrap());
        ptrs.push(allocator.allocate(1024, 1).unwrap());
        ptrs.push(allocator.allocate(104, 1).unwrap());
        ptrs.push(allocator.allocate(8, 1).unwrap());
        for ptr in ptrs.into_iter().skip(1) {
            allocator.deallocate(ptr, 1, 1);
        }
    });
}

#[test]
fn test_alignment() {
    let data_base: usize = 1 << 24;
    println!("Buffer data: {:#x}", data_base);
    let allocator_param = BuddyAllocParam::new(data_base, 4 << 16, 4096);
    let mut allocator = BuddyAlloc::new(allocator_param);
    let p = allocator.allocate(4, 1).unwrap();
    println!("Allocated pointer: {:#x}", p);
}
