use fecs::AtomicRefCell;

#[test]
fn borrow() {
    let mut val = AtomicRefCell::new(10);

    let g = val.borrow();
    assert_eq!(*val.read(), 10);
    val.release_ref(g);

    let guard1 = val.borrow();
    let guard2 = val.borrow();

    assert_eq!(*val.read(), *val.read());
    assert!(val.try_borrow_mut().is_err());

    val.release_ref(guard1);
    assert!(val.try_borrow_mut().is_err());
    val.release_ref(guard2);

    let guard2 = val.borrow_mut();
    let v = *val.read();
    val.set(v + 1);

    assert_eq!(*val.read(), 11);
    val.release_mut(guard2);

    let g = val.borrow();
    assert_eq!(*val.read(), 11);
    val.release_ref(g);
}

#[test]
fn cell_exclusivity() {
    let mut cell = AtomicRefCell::new(3u8);

    let m = cell.borrow_mut();
    // A failed shared acquisition during the exclusive borrow leaves a
    // phantom increment behind.
    assert!(cell.try_borrow().is_err());
    assert!(cell.try_borrow_mut().is_err());
    // The exclusive release clears the phantoms along with the borrow.
    cell.release_mut(m);

    let g = cell.try_borrow().unwrap();
    assert!(cell.try_borrow_mut().is_err());
    cell.release_ref(g);

    let m = cell.try_borrow_mut().unwrap();
    cell.release_mut(m);
}
