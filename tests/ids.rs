use redaw::ids::IdAllocator;

#[test]
fn allocation_skips_reserved_ids() {
    let mut a = IdAllocator::new();
    a.reserve(0);
    a.reserve(2);
    assert_eq!(a.allocate(), Some(1));
    assert_eq!(a.allocate(), Some(3));
    assert_eq!(a.allocate(), Some(4));
}

#[test]
fn allocation_counts_up_from_zero() {
    let mut a = IdAllocator::new();
    assert_eq!(a.allocate(), Some(0));
    assert_eq!(a.allocate(), Some(1));
}
