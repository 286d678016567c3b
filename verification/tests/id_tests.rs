use rcore_os::id::RecycleAllocator;

#[test]
fn ids_count_up_from_zero() {
    let mut a = RecycleAllocator::new();
    assert_eq!(a.alloc_id(), 0);
    assert_eq!(a.alloc_id(), 1);
    assert_eq!(a.alloc_id(), 2);
    assert_eq!(a.current, 3);
}

#[test]
fn returned_ids_are_reused_last_first() {
    let mut a = RecycleAllocator::new();
    for _ in 0..5 {
        a.alloc_id();
    }
    a.dealloc_id(1);
    a.dealloc_id(3);
    assert_eq!(a.alloc_id(), 3);
    assert_eq!(a.alloc_id(), 1);
    assert_eq!(a.alloc_id(), 5);
}

#[test]
fn dealloc_then_alloc_gives_the_same_id() {
    let mut a = RecycleAllocator::new();
    a.alloc_id();
    a.alloc_id();
    a.dealloc_id(0);
    assert_eq!(a.alloc_id(), 0);
    assert_eq!(a.recycled.len(), 0);
}
