use buddy_alloc::allocator::{
    is_null, option_to_pptr, pptr_to_option, AllocError, BuddyAllocator, NULL_PPTR, NUM_CLASSES,
};
use buddy_alloc::arena::Arena;
use buddy_alloc::size_class::{floor_idx, get_idx, pow2_usize, META_SIZE};

fn fresh(size: usize) -> BuddyAllocator {
    let mut a = BuddyAllocator::new();
    a.init(size, Arena::new_owned(size));
    a
}

fn total_free_bytes(a: &BuddyAllocator) -> usize {
    let mut sum: usize = 0;
    for k in 0..NUM_CLASSES {
        sum += a.count_of(k) * (1usize << k);
    }
    sum
}

#[test]
fn class_indexing() {
    assert_eq!(get_idx(1), 0);
    assert_eq!(get_idx(2), 1);
    assert_eq!(get_idx(3), 2);
    assert_eq!(get_idx(8), 3);
    assert_eq!(get_idx(9), 4);
    assert_eq!(get_idx(16), 4);
    assert_eq!(get_idx(17), 5);
    assert_eq!(get_idx(1024), 10);
    assert_eq!(pow2_usize(10), 1024);
    assert_eq!(pow2_usize(0), 1);
    assert_eq!(floor_idx(100), 6);
    assert_eq!(floor_idx(64), 6);
    assert_eq!(floor_idx(63), 5);
    assert_eq!(floor_idx(8), 3);
    assert_eq!(floor_idx(1), 0);
}

#[test]
fn null_encoding() {
    assert_eq!(NULL_PPTR, u64::MAX);
    assert!(is_null(u64::MAX));
    assert!(!is_null(0));
    assert_eq!(option_to_pptr(None), u64::MAX);
    assert_eq!(option_to_pptr(Some(5)), 5);
    assert_eq!(pptr_to_option(5), Some(5));
    assert_eq!(pptr_to_option(u64::MAX), None);
}

#[test]
fn new_allocator_is_empty() {
    let mut a = BuddyAllocator::new();
    assert_eq!(a.size(), 0);
    assert_eq!(a.available(), 0);
    assert!(a.committed());
    for k in 0..NUM_CLASSES {
        assert_eq!(a.count_of(k), 0);
    }
    assert_eq!(a.allocate(16), Err(AllocError::OutOfMemory));
}

#[test]
fn init_rounds_down_to_power_of_two() {
    let a = fresh(100);
    assert_eq!(a.size(), 64);
    assert_eq!(a.last_index(), 6);
    assert_eq!(a.available(), 64 - META_SIZE);
    assert_eq!(a.blocks_of(6), vec![0]);
    for k in 0..6 {
        assert_eq!(a.count_of(k), 0);
    }
    assert!(a.committed());
    assert!(is_null(a.next_word(0)));
}

#[test]
fn init_keeps_exact_power_of_two() {
    let a = fresh(1024);
    assert_eq!(a.size(), 1024);
    assert_eq!(a.last_index(), 10);
    assert_eq!(a.available(), 1016);
}

#[test]
fn reinit_discards_prior_state() {
    let mut a = fresh(1024);
    let _ = a.allocate(100).unwrap();
    a.init(256, Arena::new_owned(256));
    assert_eq!(a.size(), 256);
    assert_eq!(a.available(), 248);
    assert_eq!(a.blocks_of(8), vec![0]);
    assert!(a.committed());
}

#[test]
fn round_trip_restores_available() {
    let mut a = fresh(1024);
    let after_init = a.available();
    let o1 = a.allocate(100).unwrap();
    let o2 = a.allocate(50).unwrap();
    assert_ne!(o1, o2);
    // the two live extents do not overlap
    assert!(o1 + 100 <= o2 || o2 + 50 <= o1);
    a.free(o1, 100);
    a.free(o2, 50);
    assert_eq!(a.available(), after_init);
    // a single free block spans the whole usable arena again
    assert_eq!(a.blocks_of(10), vec![0]);
    for k in 0..10 {
        assert_eq!(a.count_of(k), 0, "class {} should be empty", k);
    }
}

#[test]
fn split_merge_symmetry_on_whole_arena() {
    let mut a = fresh(64);
    assert_eq!(a.blocks_of(6), vec![0]);
    // class of 56 + 8 = 64 is exactly the top class: no split happens
    let addr = a.allocate(56).unwrap();
    assert_eq!(addr, META_SIZE);
    for k in 0..NUM_CLASSES {
        assert_eq!(a.count_of(k), 0);
    }
    assert_eq!(a.available(), 0);
    a.free(addr, 56);
    // the free lists are exactly the post-init state again
    assert_eq!(a.blocks_of(6), vec![0]);
    for k in 0..6 {
        assert_eq!(a.count_of(k), 0);
    }
    assert_eq!(a.available(), 56);
}

#[test]
fn exhaustion_fails_exactly_at_capacity() {
    let mut a = fresh(256);
    // each request of 8 bytes occupies a 16-byte class-4 block
    let mut got: Vec<usize> = Vec::new();
    loop {
        match a.allocate(8) {
            Ok(addr) => got.push(addr),
            Err(e) => {
                assert_eq!(e, AllocError::OutOfMemory);
                break;
            }
        }
    }
    // 256 / 16 = 16 blocks fit, no fewer and no more
    assert_eq!(got.len(), 16);
    assert_eq!(a.available(), 0);
    // all addresses distinct, in range, and disjoint
    for (i, &x) in got.iter().enumerate() {
        assert!(x >= META_SIZE && x + 8 <= 256);
        for &y in got.iter().skip(i + 1) {
            assert!(x + 8 <= y || y + 8 <= x);
        }
    }
    // freeing one block makes exactly one more allocation possible
    a.free(got[3], 8);
    assert_eq!(a.available(), 8);
    assert!(a.allocate(8).is_ok());
    assert_eq!(a.allocate(8), Err(AllocError::OutOfMemory));
}

#[test]
fn invalid_length_is_rejected_without_state_change() {
    let mut a = fresh(256);
    let before = a.available();
    assert_eq!(a.allocate(0), Err(AllocError::InvalidLength));
    assert_eq!(a.allocate(usize::MAX), Err(AllocError::InvalidLength));
    assert_eq!(a.allocate(usize::MAX - META_SIZE + 1), Err(AllocError::InvalidLength));
    // the largest representable request is valid but cannot fit
    assert_eq!(a.allocate(usize::MAX - META_SIZE), Err(AllocError::OutOfMemory));
    assert_eq!(a.available(), before);
    assert!(!a.committed(), "a failed fitting attempt still begins a transaction");
}

#[test]
fn buddy_merge_in_either_order() {
    // first order: free the second block, then the first
    let mut a = fresh(64);
    let x = a.allocate(8).unwrap();
    let y = a.allocate(8).unwrap();
    assert_eq!((x, y), (8, 24));
    a.free(y, 8);
    assert_eq!(a.blocks_of(4), vec![16]);
    a.free(x, 8);
    assert_eq!(a.blocks_of(6), vec![0]);
    assert_eq!(a.count_of(4), 0);
    assert_eq!(a.count_of(5), 0);
    // second order: free the first block, then the second
    let mut b = fresh(64);
    let x = b.allocate(8).unwrap();
    let y = b.allocate(8).unwrap();
    b.free(x, 8);
    assert_eq!(b.blocks_of(4), vec![0]);
    b.free(y, 8);
    assert_eq!(b.blocks_of(6), vec![0]);
    assert_eq!(b.count_of(4), 0);
    assert_eq!(b.count_of(5), 0);
}

#[test]
fn embedded_next_words_thread_the_free_list() {
    let mut a = fresh(128);
    let x = a.allocate(8).unwrap();
    assert_eq!(x, 8);
    // the split cascade parked the right halves: 64 at class 6, 32 at
    // class 5, 16 at class 4, each with a null embedded next
    assert_eq!(a.blocks_of(6), vec![64]);
    assert_eq!(a.blocks_of(5), vec![32]);
    assert_eq!(a.blocks_of(4), vec![16]);
    assert!(is_null(a.next_word(64)));
    assert!(is_null(a.next_word(32)));
    assert!(is_null(a.next_word(16)));
    let y = a.allocate(8).unwrap();
    assert_eq!(y, 24);
    let z = a.allocate(8).unwrap();
    assert_eq!(z, 40);
    assert_eq!(a.blocks_of(4), vec![48]);
    // freeing x finds no free buddy and becomes the new head, its
    // embedded next word pointing at the former head
    a.free(x, 8);
    assert_eq!(a.blocks_of(4), vec![0, 48]);
    assert_eq!(a.next_word(0), 48);
    assert!(is_null(a.next_word(48)));
}

#[test]
fn memory_mapped_arena_behaves_like_owned() {
    let map = memmap::MmapMut::map_anon(128).expect("anonymous map");
    let mut a = BuddyAllocator::new();
    a.init(128, Arena::from_map(map));
    assert_eq!(a.size(), 128);
    assert!(is_null(a.next_word(0)));
    let x = a.allocate(8).unwrap();
    let y = a.allocate(8).unwrap();
    let z = a.allocate(8).unwrap();
    assert_eq!((x, y, z), (8, 24, 40));
    a.free(x, 8);
    // the embedded next word lives in the mapped bytes themselves
    assert_eq!(a.blocks_of(4), vec![0, 48]);
    assert_eq!(a.next_word(0), 48);
    assert!(is_null(a.next_word(48)));
    a.free(y, 8);
    a.free(z, 8);
    assert_eq!(a.available(), 120);
    assert_eq!(a.blocks_of(7), vec![0]);
}

#[test]
fn transaction_marker_tracks_mutations() {
    let mut a = fresh(256);
    assert!(a.committed());
    a.tx_begin();
    assert!(!a.committed());
    a.tx_end();
    assert!(a.committed());
    let addr = a.allocate(8).unwrap();
    assert!(!a.committed(), "alloc begins a transaction");
    a.tx_end();
    a.free(addr, 8);
    assert!(!a.committed(), "free begins a transaction");
}

#[test]
fn accounting_matches_the_free_lists() {
    let mut a = fresh(256);
    assert_eq!(a.available() + META_SIZE, total_free_bytes(&a));
    let o1 = a.allocate(100).unwrap();
    assert_eq!(a.available(), 248 - 128);
    assert_eq!(a.available() + META_SIZE, total_free_bytes(&a));
    let o2 = a.allocate(10).unwrap();
    assert_eq!(a.available(), 248 - 128 - 32);
    assert_eq!(a.available() + META_SIZE, total_free_bytes(&a));
    a.free(o1, 100);
    assert_eq!(a.available(), 248 - 32);
    assert_eq!(a.available() + META_SIZE, total_free_bytes(&a));
    a.free(o2, 10);
    assert_eq!(a.available(), 248);
    assert_eq!(a.available() + META_SIZE, total_free_bytes(&a));
}

#[test]
fn smallest_arena_holds_only_its_header() {
    let a = fresh(8);
    assert_eq!(a.size(), 8);
    assert_eq!(a.last_index(), 3);
    // the single class-3 block is all header: nothing is available
    assert_eq!(a.available(), 0);
    assert_eq!(a.blocks_of(3), vec![0]);
    let mut a = a;
    assert_eq!(a.allocate(1), Err(AllocError::OutOfMemory));
}
