use emark::grained_cell::GrainedUnsafeCell;
use emark::grained_lock::GrainedLock;

#[test]
fn grained_cell_test_default() {
    let cell = GrainedUnsafeCell::<i32>::default();
    assert_eq!(*cell.value(), 0);
}

#[test]
fn grained_cell_test_new() {
    let cell = GrainedUnsafeCell::<i32>::new(1);
    assert_eq!(*cell.value(), 1);
}

#[test]
fn grained_cell_into_inner() {
    let cell = GrainedUnsafeCell::<i32>::new(7);
    assert_eq!(cell.into_inner(), 7);
}

#[test]
fn grained_lock_test_default() {
    let mut lock = GrainedLock::<i32>::default();
    lock.acquire_shared();
    assert_eq!(*lock.read(), 0);
    lock.release_shared();
}

#[test]
fn grained_lock_test_new() {
    let mut lock = GrainedLock::<i32>::new(1);
    lock.acquire_shared();
    assert_eq!(*lock.read(), 1);
    lock.release_shared();
}

#[test]
fn test_take() {
    let lock = GrainedLock::<i32>::new(1);
    assert_eq!(lock.take(), 1);
}

#[test]
fn test_borrow() {
    let mut lock = GrainedLock::<i32>::default();
    lock.acquire_shared();
    assert_eq!(*lock.read(), 0);
    lock.release_shared();
}

#[test]
fn test_borrow_mut() {
    let mut lock = GrainedLock::<i32>::default();
    lock.acquire_exclusive();
    lock.write(1);
    assert_eq!(*lock.read(), 1);
    lock.release_exclusive();
}
