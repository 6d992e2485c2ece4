use heap_allocators::{AllocError, MemStats, SimpleSegregatedStorage};

#[test]
fn simple_segregated_storage_test_allocate_fail() {
    let mut alloc = SimpleSegregatedStorage::new();
    assert_eq!(alloc.allocate(1024), Err(AllocError));
}

#[test]
fn test_allocate_deallocate_success() {
    let mut alloc = SimpleSegregatedStorage::new();
    let block = alloc.allocate(128).unwrap();
    assert_eq!(block.len, 128);
    // 4 blocks carved, 3 stored while 1 is handed out
    assert_eq!(alloc.free_list_len(7), 3);
    alloc.deallocate(block.arena, block.offset, 128);
    assert_eq!(alloc.free_list_len(7), 4);
}

#[test]
fn simple_segregated_storage_test_allocation_stats() {
    let mut alloc = SimpleSegregatedStorage::new();
    let _ = alloc.allocate(256).unwrap();
    let b = alloc.allocate(128).unwrap();
    alloc.deallocate(b.arena, b.offset, 128);
    let _ = alloc.allocate(32).unwrap();
    assert_eq!(alloc.total_size(), 1536);
    assert_eq!(alloc.peak_allocated_size(), 384);
    assert_eq!(alloc.current_allocated_size(), 288);
}

#[test]
fn sss_fail_does_not_grow() {
    let mut alloc = SimpleSegregatedStorage::new();
    assert_eq!(alloc.allocate(513), Err(AllocError));
    assert_eq!(alloc.total_size(), 0);
    assert_eq!(alloc.current_allocated_size(), 0);
    for i in 0..10 {
        assert_eq!(alloc.free_list_len(i), 0);
    }
}

#[test]
fn sss_rounds_up_to_power_of_two() {
    let mut alloc = SimpleSegregatedStorage::new();
    assert_eq!(alloc.allocate(1).unwrap().len, 1);
    assert_eq!(alloc.allocate(0).unwrap().len, 1);
    assert_eq!(alloc.allocate(3).unwrap().len, 4);
    assert_eq!(alloc.allocate(33).unwrap().len, 64);
    assert_eq!(alloc.allocate(300).unwrap().len, 512);
    assert_eq!(alloc.allocate(512).unwrap().len, 512);
    // 1-byte class: 512 blocks carved, two handed out
    assert_eq!(alloc.free_list_len(0), 510);
    assert_eq!(alloc.free_list_len(9), 0);
}

#[test]
fn sss_classes_use_their_own_chunks_and_never_overlap() {
    let mut alloc = SimpleSegregatedStorage::new();
    let mut got = Vec::new();
    for size in [8usize, 8, 100, 8, 100, 17, 512, 64] {
        got.push(alloc.allocate(size).unwrap());
    }
    for (i, a) in got.iter().enumerate() {
        for b in got.iter().skip(i + 1) {
            let apart = a.arena != b.arena
                || a.offset + a.len <= b.offset
                || b.offset + b.len <= a.offset;
            assert!(apart, "{:?} overlaps {:?}", a, b);
        }
    }
    // classes 3, 7, 5, 9 and 6: five chunks
    assert_eq!(alloc.total_size(), 5 * 512);
    assert_eq!(got[0].arena, got[1].arena);
    assert_ne!(got[0].arena, got[2].arena);
}

#[test]
fn sss_free_lists_hold_class_lengths() {
    let mut alloc = SimpleSegregatedStorage::new();
    let b = alloc.allocate(5).unwrap();
    // given back with the caller's length: filed with the class length
    alloc.deallocate(b.arena, b.offset, 5);
    for k in 0..alloc.free_list_len(3) {
        assert_eq!(alloc.free_block(3, k).len, 8);
    }
    assert_eq!(alloc.free_list_len(3), 64);
}

#[test]
fn sss_deallocate_of_oversized_is_ignored() {
    let mut alloc = SimpleSegregatedStorage::new();
    let _ = alloc.allocate(64).unwrap();
    alloc.deallocate(0, 0, 1000);
    assert_eq!(alloc.current_allocated_size(), 64);
    assert_eq!(alloc.free_list_len(6), 7);
}

#[test]
fn sss_reset_matches_new() {
    let mut alloc = SimpleSegregatedStorage::new();
    let _ = alloc.allocate(64).unwrap();
    let _ = alloc.allocate(3).unwrap();
    alloc.reset();
    let fresh = SimpleSegregatedStorage::new();
    for i in 0..10 {
        assert_eq!(alloc.free_list_len(i), fresh.free_list_len(i));
    }
    assert_eq!(alloc.total_size(), 0);
    assert_eq!(alloc.peak_allocated_size(), 0);
    assert_eq!(alloc.current_allocated_size(), 0);
    assert_eq!(alloc.calculate_allocation_ratio(), (0, 0));
    // arena numbering starts over
    assert_eq!(alloc.allocate(64).unwrap().arena, 0);
}

#[test]
fn sss_stats_order() {
    let mut alloc = SimpleSegregatedStorage::new();
    let a = alloc.allocate(200).unwrap();
    let _ = alloc.allocate(16).unwrap();
    alloc.deallocate(a.arena, a.offset, 200);
    let (peak, total) = alloc.calculate_allocation_ratio();
    assert_eq!(peak, 272);
    assert_eq!(total, 1024);
    assert!(alloc.current_allocated_size() <= peak && peak <= total);
    assert_eq!(alloc.current_allocated_size(), 16);
}
