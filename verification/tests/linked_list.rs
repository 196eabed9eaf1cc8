use ros::allocator::linked_list::{LinkedListAllocInner, Node, NODE_ALIGN, NODE_SIZE};
use ros::allocator::HEAP_SIZE;

const HEAP_START: usize = 0x10000;

fn fresh_heap(size: usize) -> LinkedListAllocInner {
    let mut l = LinkedListAllocInner::new();
    l.init(HEAP_START, size);
    l
}

#[test]
fn init_tracks_the_whole_window_as_one_region() {
    let l = fresh_heap(1024);
    assert_eq!(l.regions.len(), 1);
    assert_eq!(l.regions[0], Node::new(HEAP_START, 1024));
    assert_eq!(l.regions[0].start_addr(), HEAP_START);
    assert_eq!(l.regions[0].end_addr(), HEAP_START + 1024);
}

#[test]
fn first_fit_serves_from_the_window_start() {
    let mut l = fresh_heap(1024);
    assert_eq!(l.allocate(100, 8), Some(HEAP_START));
    // The request is padded to a multiple of the alignment (104 bytes),
    // and the leftover tail becomes the single free region.
    assert_eq!(l.regions.len(), 1);
    assert_eq!(l.regions[0], Node::new(HEAP_START + 104, 1024 - 104));
}

#[test]
fn free_list_addresses_are_aligned() {
    let mut l = fresh_heap(HEAP_SIZE);
    for &align in [1usize, 2, 4, 8, 16, 4096].iter() {
        let addr = l.allocate(10, align).expect("allocation should fit");
        assert_eq!(addr % align, 0, "alignment {align} violated");
    }
}

#[test]
fn allocations_without_frees_are_disjoint() {
    let mut l = fresh_heap(HEAP_SIZE);
    let requests: [(usize, usize); 5] = [(1, 1), (40, 8), (100, 16), (3, 4), (256, 64)];
    let mut blocks: Vec<(usize, usize)> = Vec::new();
    for &(size, align) in requests.iter() {
        let addr = l.allocate(size, align).expect("allocation should fit");
        // The block really spans the padded size; record that extent.
        let padded = {
            let al = if align < NODE_ALIGN { NODE_ALIGN } else { align };
            let base = if size < NODE_SIZE { NODE_SIZE } else { size };
            base.next_multiple_of(al)
        };
        blocks.push((addr, padded));
    }
    for i in 0..blocks.len() {
        for j in (i + 1)..blocks.len() {
            let (a1, s1) = blocks[i];
            let (a2, s2) = blocks[j];
            assert!(a1 + s1 <= a2 || a2 + s2 <= a1, "blocks must not overlap");
        }
    }
}

#[test]
fn freed_block_is_reused_for_a_same_size_request() {
    let mut l = fresh_heap(1024);
    let first = l.allocate(100, 8).expect("first allocation fits");
    l.deallocate(first, 100, 8);
    let second = l.allocate(100, 8).expect("second allocation fits");
    // The most recently freed block is tried first and fits exactly, so
    // the same address comes back: the cycle leaked nothing.
    assert_eq!(second, first);
}

#[test]
fn freeing_is_lifo_and_never_coalesces() {
    let mut l = fresh_heap(1024);
    let a = l.allocate(64, 8).unwrap();
    let b = l.allocate(64, 8).unwrap();
    assert_eq!(b, a + 64);
    l.deallocate(a, 64, 8);
    l.deallocate(b, 64, 8);
    // Three regions now: b's block, a's block, the untouched tail — the
    // two adjacent freed blocks stay separate entries, most recently
    // freed first.
    assert_eq!(l.regions.len(), 3);
    assert_eq!(l.regions[0], Node::new(b, 64));
    assert_eq!(l.regions[1], Node::new(a, 64));
    assert_eq!(l.regions[2], Node::new(HEAP_START + 128, 1024 - 128));
    // A request served first-fit gets the most recently freed block.
    assert_eq!(l.allocate(64, 8), Some(b));
}

#[test]
fn split_leftover_policy_on_a_64_byte_heap() {
    // Leftover 24 >= minimum node size: the fit is taken and split.
    let mut l = fresh_heap(64);
    assert_eq!(l.allocate(40, 8), Some(HEAP_START));
    assert_eq!(l.regions.len(), 1);
    assert_eq!(l.regions[0], Node::new(HEAP_START + 40, 24));

    // Leftover 8 < minimum node size 16: the block is rejected as a fit,
    // and with no other region the request fails outright.
    let mut l = fresh_heap(64);
    assert_eq!(l.allocate(56, 8), None);
    assert_eq!(l.regions.len(), 1);
    assert_eq!(l.regions[0], Node::new(HEAP_START, 64));

    // Leftover exactly the minimum node size is accepted.
    let mut l = fresh_heap(64);
    assert_eq!(l.allocate(48, 8), Some(HEAP_START));
    assert_eq!(l.regions.len(), 1);
    assert_eq!(l.regions[0], Node::new(HEAP_START + 48, 16));

    // Leftover zero is an exact fit and is also accepted.
    let mut l = fresh_heap(64);
    assert_eq!(l.allocate(64, 8), Some(HEAP_START));
    assert_eq!(l.regions.len(), 0);
}

#[test]
fn free_list_oversized_request_fails_and_changes_nothing() {
    let mut l = fresh_heap(1024);
    assert_eq!(l.allocate(1025, 1), None);
    assert_eq!(l.regions.len(), 1);
    assert_eq!(l.regions[0], Node::new(HEAP_START, 1024));
}

#[test]
fn free_list_full_capacity_succeeds_exactly_once() {
    let mut l = fresh_heap(1024);
    assert_eq!(l.allocate(1024, 1), Some(HEAP_START));
    assert_eq!(l.regions.len(), 0);
    assert_eq!(l.allocate(1, 1), None);
    assert_eq!(l.allocate(0, 1), None);
}

#[test]
fn unrepresentable_padded_size_fails() {
    let mut l = fresh_heap(1024);
    assert_eq!(l.allocate(usize::MAX - 4, 8), None);
    assert_eq!(l.regions.len(), 1);
}

#[test]
fn zero_size_requests_are_padded_to_a_node() {
    let mut l = fresh_heap(1024);
    let addr = l.allocate(0, 1).expect("zero-size allocation succeeds");
    assert_eq!(addr, HEAP_START);
    // The block occupies one minimum node so it can be freed again.
    assert_eq!(l.regions.len(), 1);
    assert_eq!(l.regions[0], Node::new(HEAP_START + NODE_SIZE, 1024 - NODE_SIZE));
    l.deallocate(addr, 0, 1);
    assert_eq!(l.regions[0], Node::new(HEAP_START, NODE_SIZE));
}

#[test]
fn large_alignment_request_is_served_at_a_padded_address() {
    // The region start is rounded up to the requested alignment; the
    // block begins at that rounded address, not at the region start.
    let mut l = fresh_heap(8192);
    let a = l.allocate(24, 8).unwrap();
    assert_eq!(a, HEAP_START);
    let b = l.allocate(4096, 4096).expect("page-aligned block fits");
    assert_eq!(b % 4096, 0);
    assert!(b >= HEAP_START + 24);
}
