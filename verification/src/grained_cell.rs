//! The payload cell of a fine-grained lock.
//!
//! The cell itself knows nothing of locking: it is plain storage for the
//! protected payload, and every discipline on reading or writing it is
//! imposed by the contracts of the lock that wraps it.  The name recalls
//! the unchecked interior-mutability cell such a lock pairs with its
//! reader/writer primitive; here the cell is ordinary owned storage and the
//! access discipline is verified instead of unchecked.

use vstd::prelude::*;

verus! {

/// Plain storage for a lock's protected payload.
pub struct GrainedUnsafeCell<T> {
    value: T,
}

impl<T> GrainedUnsafeCell<T> {
    /// The stored payload.
    pub closed spec fn payload(self) -> T {
        self.value
    }

    /// A cell holding `data`.
    pub fn new(data: T) -> (r: Self)
        ensures
            r.payload() == data,
    {
        GrainedUnsafeCell { value: data }
    }

    /// Read the stored payload.
    pub fn value(&self) -> (r: &T)
        ensures
            *r == self.payload(),
    {
        &self.value
    }

    /// Replace the stored payload.
    pub(crate) fn set(&mut self, data: T)
        ensures
            final(self).payload() == data,
    {
        self.value = data;
    }

    /// Yield the stored payload, destroying the cell.
    pub fn into_inner(self) -> (r: T)
        ensures
            r == self.payload(),
    {
        self.value
    }
}

impl<T: Default> Default for GrainedUnsafeCell<T> {
    /// A cell holding the payload type's default value.
    fn default() -> Self {
        GrainedUnsafeCell::new(T::default())
    }
}

} // verus!
