//! Resource-access core of a lightweight component-style runtime.
//!
//! Many independent call sites obtain typed handles into one shared store of
//! heterogeneous singleton resources, with statically checked access modes
//! (shared read, exclusive write, snapshot clone, optional presence).  A
//! request for several resources at once acquires them in one canonical
//! order, so that two overlapping requests can never deadlock, whatever
//! order each caller named its resources in.
//!
//! The store, the reader/writer lock discipline and the ordering protocol are
//! modelled here as plain data: a lock is a pair of hold counters with an
//! exclusion invariant, and a handle is a token that records which entry it
//! holds and in which mode.  Every acquisition, release and structural change
//! is a verified transition over that state.

pub mod grained_cell;
pub mod grained_lock;
pub mod grained_ref;
pub mod container;
pub mod query;
pub mod res;
pub mod priority;
pub mod event;
pub mod event_manager;
