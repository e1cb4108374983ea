use fecs::EntityIndexAllocator;

#[test]
fn allocator() {
    let mut a = EntityIndexAllocator::new();

    let one = a.allocate();
    let two = a.allocate();
    let three = a.allocate();

    assert_eq!(a.allocated(), 3);
    assert_ne!(one, two);
    assert_ne!(two, three);

    a.free(two);
    assert_eq!(a.allocated(), 2);

    let four = a.allocate();
    assert_eq!(four, two);

    assert_eq!(a.allocated(), 3);
}

#[test]
fn allocator_fifo_reuse() {
    let mut a = EntityIndexAllocator::new();

    assert_eq!(a.allocate(), 0);
    assert_eq!(a.allocate(), 1);
    assert_eq!(a.allocate(), 2);

    a.free(1);

    assert_eq!(a.allocate(), 1);
    assert_eq!(a.allocate(), 3);
}

#[test]
fn allocator_fifo_is_oldest_first() {
    let mut a = EntityIndexAllocator::new();
    for _ in 0..5 {
        a.allocate();
    }
    a.free(3);
    a.free(0);
    a.free(4);
    assert_eq!(a.allocated(), 2);
    assert_eq!(a.allocate(), 3);
    assert_eq!(a.allocate(), 0);
    assert_eq!(a.allocate(), 4);
    assert_eq!(a.allocate(), 5);
    assert_eq!(a.allocated(), 6);
}
