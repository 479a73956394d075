//! Scoped lock handles and their access tags.
//!
//! A [`Ref`] is the token a caller holds while it has a resource locked: it
//! records which store entry it holds, and its type parameter — [`Immutable`]
//! or [`Mutable`] — is the access tag that statically permits or forbids
//! mutation through it.  A handle stands for one per-resource hold plus the
//! structural read hold retained underneath it; both are given back together,
//! in reverse acquisition order, when the handle is released, and release
//! consumes the handle, so each hold is given back exactly once.

use vstd::prelude::*;

use crate::query::Access;

verus! {

/// Access tag of a scoped lock handle: either [`Immutable`] or [`Mutable`].
pub trait LockState: Sized {
    /// The access mode this tag stands for.
    spec fn access() -> Access;

    /// The access mode this tag stands for, as a runtime value.
    fn access_mode() -> (a: Access)
        ensures
            a == Self::access(),
    ;
}

/// Tag of a handle that entitles shared, read-only access.
#[derive(Debug, Clone, Copy)]
pub struct Immutable;

/// Tag of a handle that entitles exclusive, read-write access.
#[derive(Debug, Clone, Copy)]
pub struct Mutable;

impl LockState for Immutable {
    open spec fn access() -> Access {
        Access::Immutable
    }

    fn access_mode() -> (a: Access)
        ensures
            a == Access::Immutable,
    {
        Access::Immutable
    }
}

impl LockState for Mutable {
    open spec fn access() -> Access {
        Access::Mutable
    }

    fn access_mode() -> (a: Access)
        ensures
            a == Access::Mutable,
    {
        Access::Mutable
    }
}

/// A scoped lock handle over the resource stored under `key`.
///
/// The handle is evidence of two stacked holds: a shared hold on the store's
/// structural lock, and a hold on the resource's own lock in the mode the tag
/// `S` names.  Only the store mints handles, and only the store's `release`
/// consumes them.
#[derive(Debug)]
pub struct Ref<S: LockState> {
    key: u64,
    _marker: core::marker::PhantomData<S>,
}

impl<S: LockState> Ref<S> {
    /// The key of the store entry this handle holds.
    pub closed spec fn key(self) -> u64 {
        self.key
    }

    /// The access mode the handle's tag entitles it to.
    pub open spec fn access(self) -> Access {
        S::access()
    }

    pub(crate) fn new(key: u64) -> (r: Self)
        ensures
            r.key() == key,
    {
        Ref { key, _marker: core::marker::PhantomData }
    }

    /// The key of the store entry this handle holds, as a runtime value.
    pub fn entry_key(&self) -> (k: u64)
        ensures
            k == self.key(),
    {
        self.key
    }
}

} // verus!
