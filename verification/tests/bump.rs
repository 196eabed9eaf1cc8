use ros::allocator::bump::BumpAllocInner;
use ros::allocator::HEAP_SIZE;

const HEAP_START: usize = 0x1000;

fn fresh_heap(size: usize) -> BumpAllocInner {
    let mut b = BumpAllocInner::new();
    b.init(HEAP_START, size);
    b
}

#[test]
fn first_allocation_starts_at_heap_start() {
    let mut b = fresh_heap(1024);
    assert_eq!(b.allocate(16, 8), Some(HEAP_START));
    assert_eq!(b.next, HEAP_START + 16);
    assert_eq!(b.allocations, 1);
}

#[test]
fn allocations_are_disjoint_and_ordered() {
    let mut b = fresh_heap(HEAP_SIZE);
    let sizes: [usize; 5] = [1, 17, 64, 3, 128];
    let mut blocks: Vec<(usize, usize)> = Vec::new();
    for &size in sizes.iter() {
        let addr = b.allocate(size, 8).expect("allocation should fit");
        blocks.push((addr, size));
    }
    for i in 0..blocks.len() {
        for j in (i + 1)..blocks.len() {
            let (a1, s1) = blocks[i];
            let (a2, _) = blocks[j];
            assert!(a1 + s1 <= a2, "blocks must not overlap");
        }
    }
}

#[test]
fn returned_addresses_are_aligned() {
    let mut b = fresh_heap(HEAP_SIZE);
    for &align in [1usize, 2, 4, 8, 16, 4096].iter() {
        let addr = b.allocate(10, align).expect("allocation should fit");
        assert_eq!(addr % align, 0, "alignment {align} violated");
    }
}

#[test]
fn reclaim_after_matching_deallocations() {
    let mut b = fresh_heap(1024);
    let first = b.allocate(16, 8).unwrap();
    assert_eq!(first, HEAP_START);
    b.allocate(32, 8).unwrap();
    b.allocate(64, 16).unwrap();
    assert_eq!(b.allocations, 3);
    assert!(b.deallocate());
    assert!(b.deallocate());
    assert_eq!(b.next, first + 16 + 32 + 64);
    assert!(b.deallocate());
    assert_eq!(b.allocations, 0);
    assert_eq!(b.next, HEAP_START);
    // The next allocation starts over at the window's start address.
    assert_eq!(b.allocate(100, 8), Some(HEAP_START));
}

#[test]
fn oversized_request_fails_and_changes_nothing() {
    let mut b = fresh_heap(1024);
    assert_eq!(b.allocate(1025, 1), None);
    assert_eq!(b.next, HEAP_START);
    assert_eq!(b.allocations, 0);
}

#[test]
fn full_capacity_succeeds_exactly_once() {
    let mut b = fresh_heap(1024);
    assert_eq!(b.allocate(1024, 1), Some(HEAP_START));
    assert_eq!(b.next, HEAP_START + 1024);
    assert_eq!(b.allocate(1, 1), None);
}

#[test]
fn address_overflow_is_a_plain_failure() {
    let mut b = BumpAllocInner::new();
    b.init(usize::MAX - 64, 64);
    assert_eq!(b.allocate(128, 1), None);
    assert_eq!(b.allocate(usize::MAX, 4096), None);
    assert_eq!(b.allocate(32, 1), Some(usize::MAX - 64));
}

#[test]
fn zero_size_requests_do_not_corrupt_state() {
    let mut b = fresh_heap(1024);
    let a0 = b.allocate(0, 8).unwrap();
    assert_eq!(a0, HEAP_START);
    assert_eq!(b.next, HEAP_START);
    assert_eq!(b.allocations, 1);
    let a1 = b.allocate(16, 8).unwrap();
    assert_eq!(a1, HEAP_START);
    assert_eq!(b.allocations, 2);
}

#[test]
fn double_free_is_detected_not_masked() {
    let mut b = fresh_heap(1024);
    b.allocate(16, 8).unwrap();
    assert!(b.deallocate(), "first free matches the allocation");
    assert_eq!(b.allocations, 0);
    assert_eq!(b.next, HEAP_START);
    // Freeing again is refused: no wrap-around of the live count, and the
    // cursor is not reset a second time into an inconsistent state.
    assert!(!b.deallocate());
    assert_eq!(b.allocations, 0);
    assert_eq!(b.next, HEAP_START);
    // The allocator still works normally afterwards.
    assert_eq!(b.allocate(8, 8), Some(HEAP_START));
}
