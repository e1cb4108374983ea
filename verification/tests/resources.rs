use fecs::OwnedResources;
use fecs::RefResources;
use fecs::ResourceError;
use fecs::ResourcesEnum;

#[test]
fn resources() {
    let mut resources = OwnedResources::new();

    resources.insert(1, 10i64);

    let g = resources.get(1);
    assert_eq!(*resources.read(&g), 10);
    resources.release(g);
    assert!(resources.try_get(2).is_err());

    resources.insert(2, 11i64);
    let g = resources.get(2);
    assert_eq!(*resources.read(&g), 11);
    resources.release(g);
}

#[test]
#[should_panic]
fn borrow_mutable_twice() {
    let mut resources = OwnedResources::new();

    resources.insert(1, 10i32);

    let _guard = resources.get_mut(1);
    resources.try_get_mut(1).unwrap();
}

#[test]
#[should_panic]
fn borrow_immutable_and_mutable() {
    let mut resources = OwnedResources::new();

    resources.insert(1, 10i32);

    let _guard = resources.get(1);
    resources.try_get_mut(1).unwrap();
}

#[derive(Debug, PartialEq, Clone)]
enum Val {
    I(i64),
    U(u64),
    S(&'static str),
}

#[test]
fn refs() {
    let owned = OwnedResources::new().with(1, Val::I(10)).with(2, Val::U(15));
    let mut resources = RefResources::new(owned, vec![(3, Val::S("bla"))]);

    let g = resources.get(1);
    assert_eq!(*resources.read(&g), Val::I(10));
    resources.release(g);

    let g = resources.get(2);
    assert_eq!(*resources.read(&g), Val::U(15));
    resources.release(g);

    let g = resources.get(3);
    assert_eq!(*resources.read(&g), Val::S("bla"));
    resources.release(g);

    let g = resources.get_mut(3);
    resources.write(&g, Val::S("test"));
    resources.release_mut(g);

    let (_owned, pairs) = resources.into_parts();
    let mut aliased_value = None;
    for (key, value) in pairs {
        if key == 3 {
            aliased_value = Some(value);
        }
    }
    assert_eq!(aliased_value, Some(Val::S("test")));
}

#[test]
fn insert_get_round_trip() {
    let mut resources = OwnedResources::new();
    resources.insert(4, 77i64);
    let g = resources.get(4);
    assert_eq!(*resources.read(&g), 77);
    resources.release(g);

    // inserting under the same type-key replaces the entry
    resources.insert(4, 88);
    let g = resources.get(4);
    assert_eq!(*resources.read(&g), 88);
    resources.release(g);
}

#[test]
fn borrow_exclusivity_per_key() {
    let mut resources = OwnedResources::new();
    resources.insert(1, 5i32);

    let g1 = resources.get(1);
    let g2 = resources.get(1);
    assert_eq!(resources.try_get_mut(1).unwrap_err(), ResourceError::AlreadyBorrowed);
    resources.release(g1);
    assert_eq!(resources.try_get_mut(1).unwrap_err(), ResourceError::AlreadyBorrowed);
    resources.release(g2);

    // all shared guards released: the exclusive borrow succeeds
    let m = resources.try_get_mut(1).unwrap();
    assert_eq!(resources.try_get(1).unwrap_err(), ResourceError::AlreadyBorrowed);
    resources.release_mut(m);

    // and releasing the exclusive guard restores availability again
    let g = resources.try_get(1).unwrap();
    resources.release(g);
}

#[test]
fn absent_resource() {
    let mut resources: OwnedResources<i32> = OwnedResources::new();
    assert_eq!(resources.try_get(9).unwrap_err(), ResourceError::NotFound);
    assert_eq!(resources.try_get_mut(9).unwrap_err(), ResourceError::NotFound);
}

#[test]
fn alias_shadows_inner() {
    let owned = OwnedResources::new().with(1, 100i32).with(2, 200);
    let mut layered = RefResources::new(owned, vec![(1, 111)]);

    let g = layered.get(1);
    assert_eq!(*layered.read(&g), 111);
    layered.release(g);

    let g = layered.get(2);
    assert_eq!(*layered.read(&g), 200);
    layered.release(g);

    assert_eq!(layered.try_get(3).unwrap_err(), ResourceError::NotFound);
}

#[test]
fn dynamic_view_dispatch() {
    let owned = OwnedResources::new().with(1, 5i32);
    let mut view = ResourcesEnum::Owned(owned);

    let g = view.try_get(1).unwrap();
    assert_eq!(*view.read(&g), 5);
    view.release(g);
    assert_eq!(view.try_get(2).unwrap_err(), ResourceError::NotFound);

    let owned = OwnedResources::new().with(1, 1i32);
    let layered = RefResources::new(owned, vec![(2, 7)]);
    let mut view = ResourcesEnum::Ref(layered);
    let g = view.try_get_mut(2).unwrap();
    view.write(&g, 8);
    assert_eq!(*view.read_mut(&g), 8);
    view.release_mut(g);
}
