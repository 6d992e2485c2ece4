use heap_allocators::{AllocError, Block, Buddy, MemStats};

fn list_lens(alloc: &Buddy) -> Vec<usize> {
    (0..10).map(|i| alloc.free_list_len(i)).collect()
}

#[test]
fn buddy_test_allocate_fail() {
    let mut alloc = Buddy::new();
    assert_eq!(alloc.allocate(1024), Err(AllocError));
}

#[test]
fn buddy_test_allocate_success() {
    let mut alloc = Buddy::new();
    let ptr = alloc.allocate(120);
    assert!(ptr.is_ok());
    assert_eq!(ptr.unwrap().len, 128);
    // one 256 block and one 128 block
    assert_eq!(alloc.free_list_len(7), 1);
    assert_eq!(alloc.free_list_len(8), 1);

    let ptr = alloc.allocate(32);
    assert!(ptr.is_ok());
    assert_eq!(ptr.unwrap().len, 32);
    assert_eq!(alloc.free_list_len(5), 1);
    assert_eq!(alloc.free_list_len(6), 1);
    assert_eq!(alloc.free_list_len(7), 0);
    assert_eq!(alloc.free_list_len(8), 1);
}

#[test]
fn buddy_test_deallocate_success() {
    let mut alloc = Buddy::new();
    let ptr = alloc.allocate(120).unwrap();
    alloc.deallocate(ptr.arena, ptr.offset, 120);
    assert_eq!(list_lens(&alloc), vec![0, 0, 0, 0, 0, 0, 0, 0, 0, 1]);

    let ptr = alloc.allocate(120).unwrap();
    assert_eq!(list_lens(&alloc), vec![0, 0, 0, 0, 0, 0, 0, 1, 1, 0]);

    let ptr2 = alloc.allocate(3).unwrap();
    assert_eq!(list_lens(&alloc), vec![0, 0, 1, 1, 1, 1, 1, 0, 1, 0]);

    alloc.deallocate(ptr.arena, ptr.offset, 120);
    assert_eq!(list_lens(&alloc), vec![0, 0, 1, 1, 1, 1, 1, 1, 1, 0]);

    alloc.deallocate(ptr2.arena, ptr2.offset, 3);
    assert_eq!(list_lens(&alloc), vec![0, 0, 0, 0, 0, 0, 0, 0, 0, 1]);
}

#[test]
fn buddy_test_allocation_stats() {
    let mut alloc = Buddy::new();
    let _ = alloc.allocate(256).unwrap();
    let b = alloc.allocate(128).unwrap();
    alloc.deallocate(b.arena, b.offset, 128);
    let _ = alloc.allocate(32).unwrap();
    assert_eq!(alloc.total_size(), 512);
    assert_eq!(alloc.peak_allocated_size(), 384);
    assert_eq!(alloc.current_allocated_size(), 288);
}

#[test]
fn buddy_split_places_halves() {
    let mut alloc = Buddy::new();
    let a = alloc.allocate(1).unwrap();
    assert_eq!(a, Block { arena: 0, offset: 0, len: 1 });
    // upper halves at 1, 2, 4, ..., 256
    for i in 0..9 {
        assert_eq!(alloc.free_list_len(i), 1);
        assert_eq!(alloc.free_block(i, 0), Block { arena: 0, offset: 1 << i, len: 1 << i });
    }
    let b = alloc.allocate(1).unwrap();
    assert_eq!(b, Block { arena: 0, offset: 1, len: 1 });
    let c = alloc.allocate(200).unwrap();
    assert_eq!(c, Block { arena: 0, offset: 256, len: 256 });
}

#[test]
fn buddy_fail_does_not_grow() {
    let mut alloc = Buddy::new();
    assert_eq!(alloc.allocate(600), Err(AllocError));
    assert_eq!(alloc.total_size(), 0);
    assert_eq!(list_lens(&alloc), vec![0; 10]);
}

#[test]
fn buddy_coalescing_stays_inside_its_chunk() {
    let mut alloc = Buddy::new();
    let a = alloc.allocate(512).unwrap();
    let b = alloc.allocate(256).unwrap();
    assert_eq!(a.arena, 0);
    assert_eq!(b.arena, 1);
    // the free upper half of chunk 1 is at offset 256; giving back chunk 0
    // must not merge with it
    alloc.deallocate(a.arena, a.offset, 512);
    assert_eq!(alloc.free_list_len(9), 1);
    assert_eq!(alloc.free_list_len(8), 1);
    alloc.deallocate(b.arena, b.offset, 256);
    assert_eq!(alloc.free_list_len(9), 2);
    assert_eq!(alloc.free_list_len(8), 0);
    assert_eq!(alloc.current_allocated_size(), 0);
}

#[test]
fn buddy_no_two_free_buddies() {
    let mut alloc = Buddy::new();
    let sizes = [1usize, 7, 64, 3, 100, 2, 16, 250, 9];
    let got: Vec<Block> = sizes.iter().map(|s| alloc.allocate(*s).unwrap()).collect();
    for (i, a) in got.iter().enumerate() {
        for b in got.iter().skip(i + 1) {
            let apart = a.arena != b.arena
                || a.offset + a.len <= b.offset
                || b.offset + b.len <= a.offset;
            assert!(apart, "{:?} overlaps {:?}", a, b);
        }
    }
    for (k, b) in got.iter().enumerate() {
        if k % 2 == 0 {
            alloc.deallocate(b.arena, b.offset, sizes[k]);
        }
    }
    for i in 0..10 {
        let n = alloc.free_list_len(i);
        for x in 0..n {
            for y in 0..n {
                let p = alloc.free_block(i, x);
                let q = alloc.free_block(i, y);
                assert!(!(p.arena == q.arena && q.offset == (p.offset ^ p.len)));
            }
        }
    }
    for (k, b) in got.iter().enumerate() {
        if k % 2 == 1 {
            alloc.deallocate(b.arena, b.offset, sizes[k]);
        }
    }
    let lens = list_lens(&alloc);
    assert_eq!(lens[..9].iter().sum::<usize>(), 0);
    assert_eq!(lens[9] * 512, alloc.total_size());
}

#[test]
fn buddy_reset_matches_new() {
    let mut alloc = Buddy::new();
    let _ = alloc.allocate(5).unwrap();
    alloc.reset();
    assert_eq!(list_lens(&alloc), list_lens(&Buddy::new()));
    assert_eq!(alloc.calculate_allocation_ratio(), (0, 0));
    assert_eq!(alloc.current_allocated_size(), 0);
}
