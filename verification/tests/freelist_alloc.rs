use buddy_alloc::freelist_alloc::{FreelistAlloc, FreelistAllocParam, BLOCK_SIZE};

const BUF_BASE: usize = 1 << 20;

fn with_allocator<F: FnOnce(FreelistAlloc)>(f: F, buf_len: usize) {
    let param = FreelistAllocParam::new(BUF_BASE, buf_len);
    let allocator = FreelistAlloc::new(param);
    f(allocator);
}

#[test]
fn freelist_alloc_test_basic_malloc() {
    // alloc a min block
    with_allocator(
        |mut allocator| {
            let p = allocator.allocate(64, 1);
            assert!(p.is_some());
            let p_addr = p.unwrap();
            // memory writeable
            allocator.write_byte(p_addr, 42);
            assert_eq!(p_addr, p.unwrap());
            assert_eq!(allocator.read_byte(p_addr), 42);
        },
        4096,
    );
}

#[test]
fn freelist_alloc_test_multiple_malloc() {
    with_allocator(
        |mut allocator| {
            let mut available_bytes = 4096;
            // alloc serveral sized blocks
            while available_bytes >= BLOCK_SIZE {
                let bytes = BLOCK_SIZE;
                assert!(allocator.allocate(bytes, 1).is_some());
                available_bytes -= bytes;
            }
        },
        4096,
    );
}

#[test]
fn freelist_alloc_test_small_size_malloc() {
    with_allocator(
        |mut allocator| {
            let mut available_bytes = 4096;
            while available_bytes >= BLOCK_SIZE {
                assert!(allocator.allocate(BLOCK_SIZE, 1).is_some());
                available_bytes -= BLOCK_SIZE;
            }
            // memory should be drained, we can't allocate even 1 byte
            assert!(allocator.allocate(1, 1).is_none());
        },
        4096,
    );
}

#[test]
fn freelist_alloc_test_fail_malloc() {
    // not enough memory since we only have HEAP_SIZE bytes,
    // and the allocator itself occupied few bytes
    with_allocator(
        |mut allocator| {
            let p = allocator.allocate(BLOCK_SIZE + 1, 1);
            assert!(p.is_none());
        },
        4096,
    );
}

#[test]
fn freelist_alloc_test_malloc_and_free() {
    fn _test_malloc_and_free(times: usize) {
        with_allocator(
            |mut allocator| {
                for _i in 0..times {
                    let mut available_bytes = 4096;
                    let mut ptrs = Vec::new();
                    // alloc serveral sized blocks
                    while available_bytes >= BLOCK_SIZE {
                        let bytes = BLOCK_SIZE;
                        let p = allocator.allocate(bytes, 1);
                        assert!(p.is_some());
                        ptrs.push(p.unwrap());
                        available_bytes -= bytes;
                    }
                    // space is drained
                    assert!(allocator.allocate(1, 1).is_none());
                    // free allocated blocks
                    for ptr in ptrs {
                        assert!(allocator.contains_ptr(ptr));
                        allocator.deallocate(ptr, 1, 1);
                    }
                }
            },
            4096,
        );
    }
    _test_malloc_and_free(10);
}

#[test]
fn freelist_alloc_test_free_bug() {
    with_allocator(
        |mut allocator| {
            let p1 = allocator.allocate(32, 1).unwrap();
            allocator.deallocate(p1, 32, 1);
            let p2 = allocator.allocate(64, 1).unwrap();
            let p3 = allocator.allocate(61, 1).unwrap();
            allocator.deallocate(p2, 64, 1);
            allocator.deallocate(p3, 61, 1);
        },
        4096,
    );
}
