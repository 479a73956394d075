//! Typed, ergonomic views over the store: shared, exclusive, snapshot-clone,
//! and the optional variant of each.
//!
//! Each view declares the access mode and the presence tolerance it needs.
//! [`Res`] and [`ResMut`] hold the resource locked for the view's lifetime
//! and must be given back with `release`; [`ResClone`] clones the value out
//! and releases every lock before returning, for callers that cannot afford
//! to hold the lock.  The required forms fail loudly — with an error — when
//! the resource was never inserted; the optional forms report the absence as
//! an explicit `None` instead.

use vstd::prelude::*;

use crate::container::Container;
use crate::grained_ref::{Immutable, Mutable, Ref};
use crate::query::{Access, Retrieved, RetrieveError};

verus! {

/// A shared, read-only view of one resource, holding it locked shared.
#[derive(Debug)]
pub struct Res {
    handle: Ref<Immutable>,
}

/// An exclusive, read-write view of one resource, holding it locked
/// exclusively.
#[derive(Debug)]
pub struct ResMut {
    handle: Ref<Mutable>,
}

/// A snapshot of one resource, cloned out of the store; all locks were
/// already given back when the snapshot was handed out.
pub struct ResClone<T>(T);

impl Res {
    /// The key of the resource this view holds.
    pub closed spec fn key(self) -> u64 {
        self.handle.key()
    }

    /// Obtain a shared view of the resource under `key`, or fail loudly
    /// when it was never inserted — a required view does not tolerate
    /// absence.
    pub fn retrieve<V>(container: &mut Container<V>, key: u64) -> (r: Result<Res, RetrieveError>)
        requires
            old(container).wf(),
            old(container).structural_readers() < u64::MAX,
            old(container).available(key, Access::Immutable),
        ensures
            final(container).wf(),
            final(container)@ == old(container)@,
            r is Ok <==> old(container).contains_key(key),
            r matches Ok(res) ==> res.key() == key && final(container).readers_of(key) == old(container).readers_of(key) + 1 && !final(container).writer_of(key) && final(container).structural_readers() == old(container).structural_readers() + 1,
            r is Err ==> r == Err::<Res, RetrieveError>(RetrieveError::NotFound) && *final(container) == *old(container),
            forall|k: u64|
                k != key ==> final(container).readers_of(k) == old(container).readers_of(k)
                    && final(container).writer_of(k) == old(container).writer_of(k),
    {
        match container.get(key, Access::Immutable) {
            Retrieved::Immutable(handle) => Ok(Res { handle }),
            Retrieved::NotFound => Err(RetrieveError::NotFound),
            Retrieved::Mutable(_) => vstd::pervasive::unreached(),
        }
    }

    /// Obtain a shared view of the resource under `key`, tolerating its
    /// absence: `None` when it was never inserted, and then nothing is
    /// locked.
    pub fn retrieve_optional<V>(container: &mut Container<V>, key: u64) -> (r: Option<Res>)
        requires
            old(container).wf(),
            old(container).structural_readers() < u64::MAX,
            old(container).available(key, Access::Immutable),
        ensures
            final(container).wf(),
            final(container)@ == old(container)@,
            r is Some <==> old(container).contains_key(key),
            r matches Some(res) ==> res.key() == key && final(container).readers_of(key) == old(container).readers_of(key) + 1 && !final(container).writer_of(key) && final(container).structural_readers() == old(container).structural_readers() + 1,
            r is None ==> *final(container) == *old(container),
            forall|k: u64|
                k != key ==> final(container).readers_of(k) == old(container).readers_of(k)
                    && final(container).writer_of(k) == old(container).writer_of(k),
    {
        match container.get(key, Access::Immutable) {
            Retrieved::Immutable(handle) => Some(Res { handle }),
            Retrieved::NotFound => None,
            Retrieved::Mutable(_) => vstd::pervasive::unreached(),
        }
    }

    /// Convert what a multi-resource retrieval came back with into a shared
    /// view.  The protocol only answers a shared request with a shared
    /// handle, so anything else is unreachable for a well-typed caller.
    pub fn from_retrieved(r: Retrieved) -> (res: Res)
        requires
            r is Immutable,
        ensures
            res.key() == r.spec_key(),
    {
        match r {
            Retrieved::Immutable(handle) => Res { handle },
            _ => vstd::pervasive::unreached(),
        }
    }

    /// Convert a retrieval outcome into an optional shared view: absence
    /// becomes `None` instead of a fault, and a handle found in the other
    /// mode also answers `None`, its holds given back at once.
    pub fn from_retrieved_optional<V>(container: &mut Container<V>, r: Retrieved) -> (res: Option<
        Res,
    >)
        requires
            old(container).wf(),
            r matches Retrieved::Mutable(h) ==> old(container).holds_at(h.key(), Access::Mutable),
        ensures
            final(container).wf(),
            final(container)@ == old(container)@,
            r is Immutable <==> res is Some,
            res matches Some(v) ==> v.key() == r.spec_key(),
            !(r is Mutable) ==> *final(container) == *old(container),
            r matches Retrieved::Mutable(h) ==> !final(container).writer_of(h.key()) && final(container).readers_of(h.key()) == 0 && final(container).structural_readers() == old(container).structural_readers() - 1,
            forall|k: u64|
                !(r is Mutable) || k != r.spec_key() ==> final(container).readers_of(k) == old(container).readers_of(k) && final(container).writer_of(k) == old(container).writer_of(k),
    {
        match r {
            Retrieved::Immutable(handle) => Some(Res { handle }),
            Retrieved::Mutable(handle) => {
                container.release(handle);
                None
            },
            Retrieved::NotFound => None,
        }
    }

    /// Read the resource this view holds.
    pub fn read<'a, V>(&self, container: &'a Container<V>) -> (v: &'a V)
        requires
            container.wf(),
            container.holds_at(self.key(), Access::Immutable),
        ensures
            *v == container@[self.key()],
    {
        container.read(&self.handle)
    }

    /// Give the view back, releasing its holds in reverse acquisition
    /// order.
    pub fn release<V>(self, container: &mut Container<V>)
        requires
            old(container).wf(),
            old(container).holds_at(self.key(), Access::Immutable),
        ensures
            final(container).wf(),
            final(container)@ == old(container)@,
            final(container).structural_readers() == old(container).structural_readers() - 1,
            final(container).readers_of(self.key()) == old(container).readers_of(self.key()) - 1,
            final(container).writer_of(self.key()) == old(container).writer_of(self.key()),
            forall|k: u64|
                k != self.key() ==> final(container).readers_of(k) == old(container).readers_of(k)
                    && final(container).writer_of(k) == old(container).writer_of(k),
    {
        container.release(self.handle)
    }
}

impl ResMut {
    /// The key of the resource this view holds.
    pub closed spec fn key(self) -> u64 {
        self.handle.key()
    }

    /// Obtain an exclusive view of the resource under `key`, or fail loudly
    /// when it was never inserted.
    pub fn retrieve<V>(container: &mut Container<V>, key: u64) -> (r: Result<
        ResMut,
        RetrieveError,
    >)
        requires
            old(container).wf(),
            old(container).structural_readers() < u64::MAX,
            old(container).available(key, Access::Mutable),
        ensures
            final(container).wf(),
            final(container)@ == old(container)@,
            r is Ok <==> old(container).contains_key(key),
            r matches Ok(res) ==> res.key() == key && final(container).writer_of(key) && final(container).readers_of(key) == 0 && final(container).structural_readers() == old(container).structural_readers() + 1,
            r is Err ==> r == Err::<ResMut, RetrieveError>(RetrieveError::NotFound) && *final(container) == *old(container),
            forall|k: u64|
                k != key ==> final(container).readers_of(k) == old(container).readers_of(k)
                    && final(container).writer_of(k) == old(container).writer_of(k),
    {
        match container.get(key, Access::Mutable) {
            Retrieved::Mutable(handle) => Ok(ResMut { handle }),
            Retrieved::NotFound => Err(RetrieveError::NotFound),
            Retrieved::Immutable(_) => vstd::pervasive::unreached(),
        }
    }

    /// Obtain an exclusive view of the resource under `key`, tolerating its
    /// absence.
    pub fn retrieve_optional<V>(container: &mut Container<V>, key: u64) -> (r: Option<ResMut>)
        requires
            old(container).wf(),
            old(container).structural_readers() < u64::MAX,
            old(container).available(key, Access::Mutable),
        ensures
            final(container).wf(),
            final(container)@ == old(container)@,
            r is Some <==> old(container).contains_key(key),
            r matches Some(res) ==> res.key() == key && final(container).writer_of(key) && final(container).readers_of(key) == 0 && final(container).structural_readers() == old(container).structural_readers() + 1,
            r is None ==> *final(container) == *old(container),
            forall|k: u64|
                k != key ==> final(container).readers_of(k) == old(container).readers_of(k)
                    && final(container).writer_of(k) == old(container).writer_of(k),
    {
        match container.get(key, Access::Mutable) {
            Retrieved::Mutable(handle) => Some(ResMut { handle }),
            Retrieved::NotFound => None,
            Retrieved::Immutable(_) => vstd::pervasive::unreached(),
        }
    }

    /// Convert what a multi-resource retrieval came back with into an
    /// exclusive view.
    pub fn from_retrieved(r: Retrieved) -> (res: ResMut)
        requires
            r is Mutable,
        ensures
            res.key() == r.spec_key(),
    {
        match r {
            Retrieved::Mutable(handle) => ResMut { handle },
            _ => vstd::pervasive::unreached(),
        }
    }

    /// Convert a retrieval outcome into an optional exclusive view: absence
    /// becomes `None` instead of a fault, and a handle found in the other
    /// mode also answers `None`, its holds given back at once.
    pub fn from_retrieved_optional<V>(container: &mut Container<V>, r: Retrieved) -> (res: Option<
        ResMut,
    >)
        requires
            old(container).wf(),
            r matches Retrieved::Immutable(h) ==> old(container).holds_at(
                h.key(),
                Access::Immutable,
            ),
        ensures
            final(container).wf(),
            final(container)@ == old(container)@,
            r is Mutable <==> res is Some,
            res matches Some(v) ==> v.key() == r.spec_key(),
            !(r is Immutable) ==> *final(container) == *old(container),
            r matches Retrieved::Immutable(h) ==> final(container).readers_of(h.key()) == old(container).readers_of(h.key()) - 1 && final(container).writer_of(h.key()) == old(container).writer_of(h.key()) && final(container).structural_readers() == old(container).structural_readers() - 1,
            forall|k: u64|
                !(r is Immutable) || k != r.spec_key() ==> final(container).readers_of(k) == old(container).readers_of(k) && final(container).writer_of(k) == old(container).writer_of(k),
    {
        match r {
            Retrieved::Mutable(handle) => Some(ResMut { handle }),
            Retrieved::Immutable(handle) => {
                container.release(handle);
                None
            },
            Retrieved::NotFound => None,
        }
    }

    /// Read the resource this view holds.
    pub fn read<'a, V>(&self, container: &'a Container<V>) -> (v: &'a V)
        requires
            container.wf(),
            container.holds_at(self.key(), Access::Mutable),
        ensures
            *v == container@[self.key()],
    {
        container.read(&self.handle)
    }

    /// Replace the resource this view holds — only an exclusive view may
    /// write.  Nothing but this one resource's content changes.
    pub fn write<V>(&self, container: &mut Container<V>, value: V)
        requires
            old(container).wf(),
            old(container).holds_at(self.key(), Access::Mutable),
        ensures
            final(container).wf(),
            final(container)@ == old(container)@.insert(self.key(), value),
            final(container).structural_readers() == old(container).structural_readers(),
            forall|k: u64|
                final(container).readers_of(k) == old(container).readers_of(k) && final(container).writer_of(k) == old(container).writer_of(k),
    {
        container.write(&self.handle, value)
    }

    /// Give the view back, releasing its holds in reverse acquisition
    /// order.
    pub fn release<V>(self, container: &mut Container<V>)
        requires
            old(container).wf(),
            old(container).holds_at(self.key(), Access::Mutable),
        ensures
            final(container).wf(),
            final(container)@ == old(container)@,
            final(container).structural_readers() == old(container).structural_readers() - 1,
            !final(container).writer_of(self.key()),
            final(container).readers_of(self.key()) == 0,
            forall|k: u64|
                k != self.key() ==> final(container).readers_of(k) == old(container).readers_of(k)
                    && final(container).writer_of(k) == old(container).writer_of(k),
    {
        container.release(self.handle)
    }
}

impl<T> View for ResClone<T> {
    type V = T;

    /// The snapshot value.
    closed spec fn view(&self) -> T {
        self.0
    }
}

impl<T: Clone> ResClone<T> {
    /// Obtain a snapshot of the resource under `key`: lock it shared, clone
    /// the value out, and give every hold back before returning, so the
    /// caller holds nothing.  Fails loudly when the resource was never
    /// inserted.
    pub fn retrieve(container: &mut Container<T>, key: u64) -> (r: Result<
        ResClone<T>,
        RetrieveError,
    >)
        requires
            old(container).wf(),
            old(container).structural_readers() < u64::MAX,
            old(container).available(key, Access::Immutable),
        ensures
            final(container).wf(),
            final(container)@ == old(container)@,
            final(container).structural_readers() == old(container).structural_readers(),
            forall|k: u64|
                final(container).readers_of(k) == old(container).readers_of(k) && final(container).writer_of(k) == old(container).writer_of(k),
            r is Ok <==> old(container).contains_key(key),
            r matches Ok(res) ==> vstd::pervasive::cloned(old(container)@[key], res@),
            r is Err ==> r == Err::<ResClone<T>, RetrieveError>(RetrieveError::NotFound),
    {
        match container.get(key, Access::Immutable) {
            Retrieved::Immutable(handle) => {
                let value = container.read(&handle).clone();
                container.release(handle);
                Ok(ResClone(value))
            },
            Retrieved::NotFound => Err(RetrieveError::NotFound),
            Retrieved::Mutable(_) => vstd::pervasive::unreached(),
        }
    }

    /// Obtain a snapshot of the resource under `key`, tolerating its
    /// absence.
    pub fn retrieve_optional(container: &mut Container<T>, key: u64) -> (r: Option<ResClone<T>>)
        requires
            old(container).wf(),
            old(container).structural_readers() < u64::MAX,
            old(container).available(key, Access::Immutable),
        ensures
            final(container).wf(),
            final(container)@ == old(container)@,
            final(container).structural_readers() == old(container).structural_readers(),
            forall|k: u64|
                final(container).readers_of(k) == old(container).readers_of(k) && final(container).writer_of(k) == old(container).writer_of(k),
            r is Some <==> old(container).contains_key(key),
            r matches Some(res) ==> vstd::pervasive::cloned(old(container)@[key], res@),
    {
        match ResClone::retrieve(container, key) {
            Ok(res) => Some(res),
            Err(_) => None,
        }
    }

    /// Convert what a multi-resource retrieval came back with into a
    /// snapshot: clone the value out and give the handle's holds back at
    /// once, so the caller keeps nothing locked.
    pub fn from_retrieved(container: &mut Container<T>, r: Retrieved) -> (res: ResClone<T>)
        requires
            old(container).wf(),
            r is Immutable,
            old(container).holds_at(r.spec_key(), Access::Immutable),
        ensures
            final(container).wf(),
            final(container)@ == old(container)@,
            final(container).structural_readers() == old(container).structural_readers() - 1,
            final(container).readers_of(r.spec_key()) == old(container).readers_of(r.spec_key())
                - 1,
            final(container).writer_of(r.spec_key()) == old(container).writer_of(r.spec_key()),
            forall|k: u64|
                k != r.spec_key() ==> final(container).readers_of(k) == old(container).readers_of(
                    k,
                ) && final(container).writer_of(k) == old(container).writer_of(k),
            vstd::pervasive::cloned(old(container)@[r.spec_key()], res@),
    {
        match r {
            Retrieved::Immutable(handle) => {
                let value = container.read(&handle).clone();
                container.release(handle);
                ResClone(value)
            },
            _ => vstd::pervasive::unreached(),
        }
    }

    /// Convert a retrieval outcome into an optional snapshot: absence
    /// becomes `None`, and a found handle is cloned out and released.
    pub fn from_retrieved_optional(container: &mut Container<T>, r: Retrieved) -> (res: Option<
        ResClone<T>,
    >)
        requires
            old(container).wf(),
            !(r is Mutable),
            r is Immutable ==> old(container).holds_at(r.spec_key(), Access::Immutable),
        ensures
            final(container).wf(),
            final(container)@ == old(container)@,
            r is Immutable <==> res is Some,
            r is NotFound ==> *final(container) == *old(container),
            res matches Some(v) ==> vstd::pervasive::cloned(old(container)@[r.spec_key()], v@),
    {
        match r {
            Retrieved::Immutable(handle) => {
                let value = container.read(&handle).clone();
                container.release(handle);
                Some(ResClone(value))
            },
            Retrieved::NotFound => None,
            Retrieved::Mutable(_) => vstd::pervasive::unreached(),
        }
    }

    /// Read the snapshot.
    pub fn value(&self) -> (v: &T)
        ensures
            *v == self@,
    {
        &self.0
    }

    /// Give the snapshot up, yielding the cloned value.
    pub fn into_inner(self) -> (v: T)
        ensures
            v == self@,
    {
        self.0
    }
}

/// Clone-view isolation: a snapshot taken of the value stored under a key
/// is tied to that value alone; after a subsequent exclusive mutation the
/// store holds the new value, while the snapshot still corresponds to the
/// value that was cloned before the mutation.
pub proof fn lemma_clone_isolation<V: Clone>(m: Map<u64, V>, key: u64, snapshot: V, value: V)
    requires
        m.dom().contains(key),
        vstd::pervasive::cloned(m[key], snapshot),
    ensures
        m.insert(key, value)[key] == value,
        vstd::pervasive::cloned(m[key], snapshot),
{
}

} // verus!
