use ros::allocator::{align_up, align_up_checked, DummyAlloc, HEAP_SIZE};

#[test]
fn align_up_identity_on_multiples() {
    assert_eq!(align_up(0, 1), 0);
    assert_eq!(align_up(5, 1), 5);
    assert_eq!(align_up(8, 8), 8);
    assert_eq!(align_up(4096, 4096), 4096);
}

#[test]
fn align_up_rounds_upwards() {
    assert_eq!(align_up(5, 4), 8);
    assert_eq!(align_up(1, 8), 8);
    assert_eq!(align_up(9, 8), 16);
    assert_eq!(align_up(0x1001, 4096), 0x2000);
}

#[test]
fn align_up_checked_matches_align_up() {
    assert_eq!(align_up_checked(10, 8), Some(16));
    assert_eq!(align_up_checked(16, 16), Some(16));
}

#[test]
fn align_up_checked_reports_overflow() {
    assert_eq!(align_up_checked(usize::MAX, 4096), None);
    assert_eq!(align_up_checked(usize::MAX, 2), None);
    assert_eq!(align_up_checked(usize::MAX - 1, 2), Some(usize::MAX - 1));
}

#[test]
fn dummy_allocator_refuses_everything() {
    let d = DummyAlloc;
    assert_eq!(d.allocate(1, 1), None);
    assert_eq!(d.allocate(0, 4096), None);
    assert_eq!(d.allocate(HEAP_SIZE, 8), None);
}
