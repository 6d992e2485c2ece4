use heap_allocators::{AllocError, Block, MemStats, SegregatedFreeList};

#[test]
fn segregated_free_list_test_allocate_fail() {
    let mut alloc = SegregatedFreeList::new();
    assert_eq!(alloc.allocate(1024), Err(AllocError));
}

#[test]
fn segregated_free_list_test_allocate_success() {
    let mut alloc = SegregatedFreeList::new();
    let ptr = alloc.allocate(64);
    assert!(ptr.is_ok());
    assert_eq!(ptr.unwrap().len, 64);
    assert_eq!(alloc.free_list_len(4), 1);
    assert_eq!(alloc.free_block(4, 0).len, 448);

    // served from the existing block
    let ptr = alloc.allocate(300);
    assert!(ptr.is_ok());
    assert_eq!(ptr.unwrap().len, 300);
    assert_eq!(alloc.free_list_len(3), 1);
    assert_eq!(alloc.free_list_len(4), 0);
    assert_eq!(alloc.free_block(3, 0).len, 148);

    // needs a new chunk
    let ptr = alloc.allocate(300);
    assert!(ptr.is_ok());
    assert_eq!(ptr.unwrap().len, 300);
    assert_eq!(alloc.free_list_len(3), 2);
    assert_eq!(alloc.free_block(3, 0).len, 148);
    assert_eq!(alloc.free_block(3, 1).len, 212);
}

#[test]
fn segregated_free_list_test_deallocate_success() {
    let mut alloc = SegregatedFreeList::new();
    let ptr = alloc.allocate(64);
    assert!(ptr.is_ok());
    let space = ptr.unwrap();
    assert_eq!(space.len, 64);
    assert_eq!(alloc.free_list_len(4), 1);
    assert_eq!(alloc.free_block(4, 0).len, 448);

    alloc.deallocate(space.arena, space.offset, 64);
    assert_eq!(alloc.free_list_len(4), 1);
    assert_eq!(alloc.free_block(4, 0).len, 512);
}

#[test]
fn segregated_free_list_test_allocation_stats() {
    let mut alloc = SegregatedFreeList::new();
    let _ = alloc.allocate(256).unwrap();
    let b = alloc.allocate(128).unwrap();
    alloc.deallocate(b.arena, b.offset, 128);
    let _ = alloc.allocate(32).unwrap();
    assert_eq!(alloc.total_size(), 512);
    assert_eq!(alloc.peak_allocated_size(), 384);
    assert_eq!(alloc.current_allocated_size(), 288);
}

#[test]
fn sfl_exact_fit_is_counted() {
    let mut alloc = SegregatedFreeList::new();
    let b = alloc.allocate(512).unwrap();
    assert_eq!(b, Block { arena: 0, offset: 0, len: 512 });
    for i in 0..5 {
        assert_eq!(alloc.free_list_len(i), 0);
    }
    assert_eq!(alloc.current_allocated_size(), 512);
    assert_eq!(alloc.peak_allocated_size(), 512);
    assert_eq!(alloc.total_size(), 512);
}

#[test]
fn sfl_fail_does_not_grow() {
    let mut alloc = SegregatedFreeList::new();
    assert_eq!(alloc.allocate(700), Err(AllocError));
    assert_eq!(alloc.total_size(), 0);
}

#[test]
fn sfl_returns_exact_lengths_without_overlap() {
    let mut alloc = SegregatedFreeList::new();
    let sizes = [10usize, 100, 33, 1, 400, 77, 5, 256];
    let got: Vec<Block> = sizes.iter().map(|s| alloc.allocate(*s).unwrap()).collect();
    for (k, b) in got.iter().enumerate() {
        assert_eq!(b.len, sizes[k]);
        assert!(b.offset + b.len <= 512);
    }
    for (i, a) in got.iter().enumerate() {
        for b in got.iter().skip(i + 1) {
            let apart = a.arena != b.arena
                || a.offset + a.len <= b.offset
                || b.offset + b.len <= a.offset;
            assert!(apart, "{:?} overlaps {:?}", a, b);
        }
    }
}

#[test]
fn sfl_merges_only_with_the_next_block() {
    let mut alloc = SegregatedFreeList::new();
    let a = alloc.allocate(100).unwrap();
    let b = alloc.allocate(100).unwrap();
    assert_eq!(b.offset, 100);
    // free a: the block after it (b) is live, so no merge
    alloc.deallocate(a.arena, a.offset, 100);
    assert_eq!(alloc.free_list_len(2), 1);
    assert_eq!(alloc.free_block(2, 0), Block { arena: 0, offset: 0, len: 100 });
    assert_eq!(alloc.free_list_len(4), 1);
    assert_eq!(alloc.free_block(4, 0), Block { arena: 0, offset: 200, len: 312 });
    // free b: merges forward with the 312 bytes after it, not backward with a
    alloc.deallocate(b.arena, b.offset, 100);
    assert_eq!(alloc.free_list_len(4), 1);
    assert_eq!(alloc.free_block(4, 0), Block { arena: 0, offset: 100, len: 412 });
    assert_eq!(alloc.free_list_len(2), 1);
    assert_eq!(alloc.current_allocated_size(), 0);
}

#[test]
fn sfl_reset_matches_new() {
    let mut alloc = SegregatedFreeList::new();
    let _ = alloc.allocate(50).unwrap();
    alloc.reset();
    for i in 0..5 {
        assert_eq!(alloc.free_list_len(i), 0);
    }
    assert_eq!(alloc.calculate_allocation_ratio(), (0, 0));
    assert_eq!(alloc.current_allocated_size(), 0);
}
