//! Fine-grained reader/writer lock over one payload.
//!
//! The lock pairs a payload cell with the state of a reader/writer
//! mutual-exclusion primitive: how many shared holders there are and whether
//! an exclusive holder exists.  The exclusion invariant — an exclusive holder
//! excludes every other holder — is part of the type's well-formedness, and
//! the payload can only be read or written under the matching hold, which the
//! contracts of `read` and `write` demand.

use vstd::prelude::*;

use crate::grained_cell::GrainedUnsafeCell;

verus! {

/// A payload behind reader/writer mutual exclusion.
///
/// `readers` counts the shared holds, `writer` records an exclusive hold.
/// The payload may be read only while a shared or exclusive hold exists, and
/// written only under an exclusive hold.
pub struct GrainedLock<T> {
    readers: u64,
    writer: bool,
    data: GrainedUnsafeCell<T>,
}

impl<T> GrainedLock<T> {
    /// How many shared holds are outstanding.
    pub closed spec fn readers(self) -> u64 {
        self.readers
    }

    /// Whether an exclusive hold is outstanding.
    pub closed spec fn writer(self) -> bool {
        self.writer
    }

    /// The protected payload.
    pub closed spec fn payload(self) -> T {
        self.data.payload()
    }

    /// Exclusion invariant: an exclusive holder excludes all shared holders.
    pub open spec fn wf(self) -> bool {
        self.writer() ==> self.readers() == 0
    }

    /// No hold of any kind is outstanding.
    pub open spec fn is_free(self) -> bool {
        self.readers() == 0 && !self.writer()
    }

    /// Total number of outstanding holds, of either kind.
    pub open spec fn holds(self) -> int {
        self.readers() + if self.writer() {
            1int
        } else {
            0int
        }
    }

    /// A fresh, unheld lock around `data`.
    pub fn new(data: T) -> (r: Self)
        ensures
            r.wf(),
            r.is_free(),
            r.payload() == data,
    {
        GrainedLock { readers: 0, writer: false, data: GrainedUnsafeCell::new(data) }
    }

    /// Take a shared hold.  Blocks in a concurrent setting until no exclusive
    /// holder remains; here that availability is the precondition.
    pub fn acquire_shared(&mut self)
        requires
            old(self).wf(),
            !old(self).writer(),
            old(self).readers() < u64::MAX,
        ensures
            final(self).wf(),
            final(self).readers() == old(self).readers() + 1,
            !final(self).writer(),
            final(self).payload() == old(self).payload(),
    {
        self.readers = self.readers + 1;
    }

    /// Take the exclusive hold.  Available only when no holder of any kind
    /// remains.
    pub fn acquire_exclusive(&mut self)
        requires
            old(self).wf(),
            old(self).is_free(),
        ensures
            final(self).wf(),
            final(self).writer(),
            final(self).readers() == 0,
            final(self).payload() == old(self).payload(),
    {
        self.writer = true;
    }

    /// Give back one shared hold.
    pub fn release_shared(&mut self)
        requires
            old(self).wf(),
            old(self).readers() > 0,
        ensures
            final(self).wf(),
            final(self).readers() == old(self).readers() - 1,
            final(self).writer() == old(self).writer(),
            final(self).payload() == old(self).payload(),
    {
        self.readers = self.readers - 1;
    }

    /// Give back the exclusive hold.
    pub fn release_exclusive(&mut self)
        requires
            old(self).wf(),
            old(self).writer(),
        ensures
            final(self).wf(),
            final(self).is_free(),
            final(self).payload() == old(self).payload(),
    {
        self.writer = false;
    }

    /// Read the payload; some hold must be outstanding.
    pub fn read(&self) -> (r: &T)
        requires
            self.readers() > 0 || self.writer(),
        ensures
            *r == self.payload(),
    {
        self.data.value()
    }

    /// Replace the payload; only the exclusive holder may write.
    pub fn write(&mut self, value: T)
        requires
            old(self).wf(),
            old(self).writer(),
        ensures
            final(self).wf(),
            final(self).payload() == value,
            final(self).writer(),
            final(self).readers() == 0,
    {
        self.data.set(value);
    }

    /// Yield ownership of the payload, destroying the lock.  Requires that no
    /// hold is outstanding, which is what taking the exclusive hold before
    /// consuming guarantees in a concurrent setting.
    pub fn take(self) -> (r: T)
        requires
            self.wf(),
            self.is_free(),
        ensures
            r == self.payload(),
    {
        self.data.into_inner()
    }
}

impl<T: Default> Default for GrainedLock<T> {
    /// A fresh, unheld lock around the payload type's default value.
    fn default() -> (r: Self)
        ensures
            r.wf(),
            r.is_free(),
    {
        GrainedLock::new(T::default())
    }
}

} // verus!
