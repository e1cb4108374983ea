use fecs::ErasedVec;

#[test]
fn erased_vec() {
    let mut vec: ErasedVec<Vec<i32>> = ErasedVec::new(7);
    vec.push(7, vec![0i32, 10i32]);

    assert_eq!(vec.len(), 1);

    let v = vec.get(0);

    assert_eq!(v[0], 0);
    assert_eq!(v[1], 10);
    assert_eq!(v.len(), 2);
}

#[test]
fn erased_vec_extend_and_clear() {
    let mut vec: ErasedVec<u16> = ErasedVec::new(3);
    vec.push(3, 1);
    vec.extend(3, vec![2, 3]);
    assert_eq!(vec.len(), 3);
    assert_eq!(*vec.get(0), 1);
    assert_eq!(*vec.get(2), 3);

    vec.clear();
    assert_eq!(vec.len(), 0);

    vec.push(3, 9);
    assert_eq!(*vec.get(0), 9);
    assert_eq!(vec.type_key(), 3);
}

#[test]
fn erased_vec_take_items() {
    let mut vec: ErasedVec<i64> = ErasedVec::new(5);
    vec.push(5, 40);
    vec.push(5, 41);
    let items = vec.take_items();
    assert_eq!(items, vec![40, 41]);
    assert_eq!(vec.len(), 0);
    assert_eq!(vec.type_key(), 5);
}
