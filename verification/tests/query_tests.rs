use emark::container::{Container, ResourceContainer};
use emark::query::{plan, release_all, retrieve, Access, Request, Retrieved, RetrieveError};

const KEY_A: u64 = 10;
const KEY_B: u64 = 20;
const KEY_C: u64 = 30;

fn shared(key: u64) -> Request {
    Request { key, access: Access::Immutable, required: true }
}

fn optional_shared(key: u64) -> Request {
    Request { key, access: Access::Immutable, required: false }
}

fn handle_key(r: &Retrieved) -> u64 {
    match r {
        Retrieved::Immutable(h) => h.entry_key(),
        Retrieved::Mutable(h) => h.entry_key(),
        Retrieved::NotFound => panic!("no handle"),
    }
}

#[test]
fn plan_sorts_by_key_and_keeps_positions() {
    let request = vec![shared(KEY_C), shared(KEY_A), shared(KEY_B)];
    let planned = plan(&request);
    let keys: Vec<u64> = planned.iter().map(|p| p.0.key).collect();
    assert_eq!(keys, vec![KEY_A, KEY_B, KEY_C]);
    let positions: Vec<usize> = planned.iter().map(|p| p.1).collect();
    assert_eq!(positions, vec![1, 2, 0]);
}

#[test]
fn opposite_declaration_orders_acquire_alike() {
    // Two requests naming the same two resources in opposite order plan the
    // same acquisition order, so neither can wait on the other's hold.
    let forward = plan(&vec![shared(KEY_A), shared(KEY_B)]);
    let backward = plan(&vec![shared(KEY_B), shared(KEY_A)]);
    let forward_keys: Vec<u64> = forward.iter().map(|p| p.0.key).collect();
    let backward_keys: Vec<u64> = backward.iter().map(|p| p.0.key).collect();
    assert_eq!(forward_keys, backward_keys);
}

#[test]
fn retrieve_answers_in_declared_order() {
    let mut container = Container::default();
    container.add_resource(KEY_A, 1i32);
    container.add_resource(KEY_B, 2i32);
    let out = retrieve(&mut container, &vec![shared(KEY_B), shared(KEY_A)]).unwrap();
    assert_eq!(out.len(), 2);
    assert_eq!(handle_key(&out[0]), KEY_B);
    assert_eq!(handle_key(&out[1]), KEY_A);
    for r in out.into_iter() {
        container.release_retrieved(r);
    }

    let out = retrieve(&mut container, &vec![shared(KEY_A), shared(KEY_B)]).unwrap();
    assert_eq!(handle_key(&out[0]), KEY_A);
    assert_eq!(handle_key(&out[1]), KEY_B);
    release_all(&mut container, out);

    // with every handle given back, a structural change is available again
    assert_eq!(container.remove_resource(KEY_B), Some(2));
}

#[test]
fn retrieve_rejects_conflicting_request() {
    let mut container = Container::<i32>::default();
    container.add_resource(KEY_A, 1);
    let request = vec![shared(KEY_A), shared(KEY_A)];
    assert_eq!(retrieve(&mut container, &request).unwrap_err(), RetrieveError::Conflict);
}

#[test]
fn retrieve_fails_wholly_on_missing_required() {
    let mut container = Container::default();
    container.add_resource(KEY_A, 1i32);
    let request = vec![shared(KEY_A), shared(KEY_B)];
    assert_eq!(retrieve(&mut container, &request).unwrap_err(), RetrieveError::NotFound);
    // nothing was retrieved, so the present resource is still free for an
    // exclusive view
    let r = container.get(KEY_A, Access::Mutable);
    assert!(r.is_mutable());
    container.release_retrieved(r);
}

#[test]
fn retrieve_tolerates_declared_absence() {
    let mut container = Container::default();
    container.add_resource(KEY_A, 1i32);
    let request = vec![optional_shared(KEY_B), shared(KEY_A)];
    let out = retrieve(&mut container, &request).unwrap();
    assert!(!out[0].is_found());
    assert!(out[1].is_immutable());
    for r in out.into_iter() {
        container.release_retrieved(r);
    }
}

#[test]
fn scenario_mutate_then_observe_and_cross_order_requests() {
    // Insert an integer resource with value 1, mutate it to 2 through an
    // exclusive view, then observe 2 through a shared view.
    let mut container = Container::default();
    container.add_resource(KEY_A, 1i32);
    let writer = container.get(KEY_A, Access::Mutable);
    match &writer {
        Retrieved::Mutable(h) => container.write(h, 2i32),
        _ => panic!("expected an exclusive handle"),
    }
    container.release_retrieved(writer);
    let reader = container.get(KEY_A, Access::Immutable);
    match &reader {
        Retrieved::Immutable(h) => assert_eq!(*container.read(h), 2i32),
        _ => panic!("expected a shared handle"),
    }
    container.release_retrieved(reader);

    // Two multi-resource requests for the same two resources, declared in
    // opposite orders, both complete and both observe the inserted values.
    container.add_resource(KEY_C, 7i32);
    let first = retrieve(&mut container, &vec![shared(KEY_A), shared(KEY_C)]).unwrap();
    let second = retrieve(&mut container, &vec![shared(KEY_C), shared(KEY_A)]).unwrap();
    match (&first[0], &second[1]) {
        (Retrieved::Immutable(a1), Retrieved::Immutable(a2)) => {
            assert_eq!(*container.read(a1), 2i32);
            assert_eq!(*container.read(a2), 2i32);
        }
        _ => panic!("expected shared handles"),
    }
    match (&first[1], &second[0]) {
        (Retrieved::Immutable(c1), Retrieved::Immutable(c2)) => {
            assert_eq!(*container.read(c1), 7i32);
            assert_eq!(*container.read(c2), 7i32);
        }
        _ => panic!("expected shared handles"),
    }
    for r in first.into_iter() {
        container.release_retrieved(r);
    }
    for r in second.into_iter() {
        container.release_retrieved(r);
    }
}

#[test]
fn release_all_takes_repeated_shared_holds() {
    let mut container = Container::default();
    container.add_resource(KEY_A, 3i32);
    let first = container.get(KEY_A, Access::Immutable);
    let second = container.get(KEY_A, Access::Immutable);
    assert!(first.is_immutable() && second.is_immutable());
    release_all(&mut container, vec![first, second]);
    // both shared holds are gone, so an exclusive view is available
    let writer = container.get(KEY_A, Access::Mutable);
    assert!(writer.is_mutable());
    container.release_retrieved(writer);
}
