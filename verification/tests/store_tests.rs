use emark::container::{Container, ResourceContainer};
use emark::query::{Access, Request, RetrieveError};
use emark::res::{Res, ResClone, ResMut};

const KEY_I32: u64 = 1;
const KEY_I64: u64 = 2;
const KEY_U32: u64 = 3;

fn shared(key: u64) -> Request {
    Request { key, access: Access::Immutable, required: true }
}

fn exclusive(key: u64) -> Request {
    Request { key, access: Access::Mutable, required: true }
}

#[test]
fn container_test_default() {
    let _ = Container::<i32>::default();
}

#[test]
fn test_add_resource() {
    let mut container = Container::default();
    container.add_resource(KEY_I32, 1);
}

#[test]
fn test_remove_resource() {
    let mut container = Container::default();
    container.add_resource(KEY_I32, 1i32);
    assert!(container.remove_resource(KEY_I32).is_some());
    assert!(container.remove_resource(KEY_I64).is_none());
}

#[test]
fn test_contains_resource() {
    let mut container = Container::default();
    container.add_resource(KEY_I32, 1i32);
    assert!(container.contains_resource(KEY_I32));
    assert!(!container.contains_resource(KEY_I64));
}

#[test]
fn test_get() {
    let mut container = Container::default();
    container.add_resource(KEY_I32, 1i32);
    {
        let resource = container.get(KEY_I32, Access::Immutable);
        assert!(resource.is_found());
        assert!(resource.is_immutable());
        container.release_retrieved(resource);
    }

    {
        let resource = container.get(KEY_I32, Access::Mutable);
        assert!(resource.is_found());
        assert!(resource.is_mutable());
        container.release_retrieved(resource);
    }

    {
        let resource = container.get(KEY_I64, Access::Immutable);
        assert!(!resource.is_found());
        assert!(!resource.is_immutable());
        assert!(!resource.is_mutable());
    }
}

#[test]
fn test_res() {
    let mut container = Container::default();
    container.add_resource(KEY_I32, 1i32);
    let res = Res::retrieve(&mut container, KEY_I32).unwrap();
    assert_eq!(*res.read(&container), 1i32);
    res.release(&mut container);
}

#[test]
fn test_res_mut() {
    let mut container = Container::default();
    container.add_resource(KEY_I32, 1i32);
    let res = ResMut::retrieve(&mut container, KEY_I32).unwrap();
    assert_eq!(*res.read(&container), 1i32);
    res.release(&mut container);
}

#[test]
fn test_res_not_found() {
    let mut container = Container::<i32>::default();
    assert_eq!(Res::retrieve(&mut container, KEY_I32).unwrap_err(), RetrieveError::NotFound);
}

#[test]
fn test_res_mut_not_found() {
    let mut container = Container::<i32>::default();
    assert_eq!(ResMut::retrieve(&mut container, KEY_I32).unwrap_err(), RetrieveError::NotFound);
}

#[test]
fn test_res_multiple() {
    let mut container = Container::default();
    container.add_resource(KEY_I32, 1i32);
    container.add_resource(KEY_U32, 1i32);
    let request = vec![shared(KEY_I32), shared(KEY_U32)];
    let out = emark::query::retrieve(&mut container, &request).unwrap();
    let mut values: Vec<i32> = Vec::new();
    for r in out.into_iter() {
        let res = Res::from_retrieved(r);
        values.push(*res.read(&container));
        res.release(&mut container);
    }
    assert_eq!(values, vec![1i32, 1i32]);
}

#[test]
fn test_res_mut_multiple() {
    let mut container = Container::default();
    container.add_resource(KEY_I32, 1i32);
    container.add_resource(KEY_U32, 1i32);
    let request = vec![exclusive(KEY_I32), exclusive(KEY_U32)];
    let out = emark::query::retrieve(&mut container, &request).unwrap();
    let mut values: Vec<i32> = Vec::new();
    for r in out.into_iter() {
        let res = ResMut::from_retrieved(r);
        values.push(*res.read(&container));
        res.release(&mut container);
    }
    assert_eq!(values, vec![1i32, 1i32]);
}

#[test]
fn test_res_clone() {
    let mut container = Container::default();
    container.add_resource(KEY_I32, 1i32);
    let res = ResClone::retrieve(&mut container, KEY_I32).unwrap();
    assert_eq!(*res.value(), 1i32);
}

#[test]
fn test_res_option() {
    let mut container = Container::default();
    container.add_resource(KEY_I32, 1i32);
    let res = Res::retrieve_optional(&mut container, KEY_I32);
    let res = res.unwrap();
    assert_eq!(*res.read(&container), 1i32);
    res.release(&mut container);
}

#[test]
fn test_res_option_none() {
    let mut container = Container::<i32>::default();
    let res = Res::retrieve_optional(&mut container, KEY_I32);
    assert!(res.is_none());
}

#[test]
fn test_res_option_clone() {
    let mut container = Container::default();
    container.add_resource(KEY_I32, 1i32);
    let res = ResClone::retrieve_optional(&mut container, KEY_I32);
    assert_eq!(*res.unwrap().value(), 1i32);
}

#[test]
fn test_res_option_clone_none() {
    let mut container = Container::<i32>::default();
    let res = ResClone::retrieve_optional(&mut container, KEY_I32);
    assert!(res.is_none());
}

#[test]
fn test_res_option_mut() {
    let mut container = Container::default();
    container.add_resource(KEY_I32, 1i32);
    let res = ResMut::retrieve_optional(&mut container, KEY_I32);
    let res = res.unwrap();
    assert_eq!(*res.read(&container), 1i32);
    res.release(&mut container);
}

#[test]
fn test_res_option_mut_none() {
    let mut container = Container::<i32>::default();
    let res = ResMut::retrieve_optional(&mut container, KEY_I32);
    assert!(res.is_none());
}

#[test]
fn test_resmut_change_value() {
    let mut container = Container::default();
    container.add_resource(KEY_I32, 1i32);
    {
        let res = ResMut::retrieve(&mut container, KEY_I32).unwrap();
        res.write(&mut container, 2i32);
        assert_eq!(*res.read(&container), 2i32);
        res.release(&mut container);
    }

    let res = Res::retrieve(&mut container, KEY_I32).unwrap();
    assert_eq!(*res.read(&container), 2i32);
    res.release(&mut container);
}

#[test]
fn type_isolation_round_trip() {
    let mut container = Container::default();
    container.add_resource(KEY_I32, 10i32);
    container.add_resource(KEY_I64, 20i32);
    assert_eq!(container.remove_resource(KEY_I32), Some(10));
    assert!(container.contains_resource(KEY_I64));
    assert!(!container.contains_resource(KEY_I32));
    let res = Res::retrieve(&mut container, KEY_I64).unwrap();
    assert_eq!(*res.read(&container), 20);
    res.release(&mut container);
}

#[test]
fn absence_round_trip() {
    let mut container = Container::default();
    container.add_resource(KEY_I32, 5i32);
    assert!(Res::retrieve_optional(&mut container, KEY_I32)
        .map(|r| r.release(&mut container))
        .is_some());
    assert_eq!(container.remove_resource(KEY_I32), Some(5));
    assert!(Res::retrieve_optional(&mut container, KEY_I32).is_none());
}

#[test]
fn clone_view_isolation() {
    let mut container = Container::default();
    container.add_resource(KEY_I32, 1i32);
    let snapshot = ResClone::retrieve(&mut container, KEY_I32).unwrap();
    let res = ResMut::retrieve(&mut container, KEY_I32).unwrap();
    res.write(&mut container, 2i32);
    res.release(&mut container);
    assert_eq!(*snapshot.value(), 1i32);
    let after = ResClone::retrieve(&mut container, KEY_I32).unwrap();
    assert_eq!(after.into_inner(), 2i32);
}

#[test]
fn shared_holds_coexist() {
    let mut container = Container::default();
    container.add_resource(KEY_I32, 9i32);
    let first = Res::retrieve(&mut container, KEY_I32).unwrap();
    let second = Res::retrieve(&mut container, KEY_I32).unwrap();
    assert_eq!(*first.read(&container), 9);
    assert_eq!(*second.read(&container), 9);
    first.release(&mut container);
    second.release(&mut container);
    let writer = ResMut::retrieve(&mut container, KEY_I32).unwrap();
    writer.write(&mut container, 10);
    writer.release(&mut container);
    assert_eq!(ResClone::retrieve(&mut container, KEY_I32).unwrap().into_inner(), 10);
}

#[test]
fn converted_views_from_a_multi_request() {
    let mut container = Container::default();
    container.add_resource(KEY_I32, 4i32);
    let request = vec![
        Request { key: KEY_I32, access: Access::Immutable, required: true },
        Request { key: KEY_I64, access: Access::Immutable, required: false },
    ];
    let mut out = emark::query::retrieve(&mut container, &request).unwrap();
    let absent = out.pop().unwrap();
    let found = out.pop().unwrap();
    assert!(Res::from_retrieved_optional(&mut container, absent).is_none());
    let snapshot = ResClone::from_retrieved(&mut container, found);
    assert_eq!(snapshot.into_inner(), 4i32);
}

#[test]
fn optional_exclusive_from_a_multi_request() {
    let mut container = Container::default();
    container.add_resource(KEY_I32, 6i32);
    let request = vec![Request { key: KEY_I32, access: Access::Mutable, required: true }];
    let mut out = emark::query::retrieve(&mut container, &request).unwrap();
    let found = out.pop().unwrap();
    let res = ResMut::from_retrieved_optional(&mut container, found).unwrap();
    res.write(&mut container, 7i32);
    res.release(&mut container);
    assert_eq!(ResClone::retrieve(&mut container, KEY_I32).unwrap().into_inner(), 7i32);
}

#[test]
fn optional_clone_tolerates_wrong_marker() {
    let mut container = Container::<i32>::default();
    let missing = container.get(KEY_I32, Access::Immutable);
    assert!(ResClone::from_retrieved_optional(&mut container, missing).is_none());
}

#[test]
fn optional_converters_release_the_other_mode() {
    let mut container = Container::default();
    container.add_resource(KEY_I32, 8i32);
    // a shared handle converted as an optional exclusive view answers None
    // and gives its holds back, so an exclusive view is available at once
    let found = container.get(KEY_I32, Access::Immutable);
    assert!(ResMut::from_retrieved_optional(&mut container, found).is_none());
    let writer = ResMut::retrieve(&mut container, KEY_I32).unwrap();
    writer.write(&mut container, 9i32);
    writer.release(&mut container);
    // and an exclusive handle converted as an optional shared view likewise
    let found = container.get(KEY_I32, Access::Mutable);
    assert!(Res::from_retrieved_optional(&mut container, found).is_none());
    let reader = Res::retrieve(&mut container, KEY_I32).unwrap();
    assert_eq!(*reader.read(&container), 9i32);
    reader.release(&mut container);
}
