//! The event marker trait.

use vstd::prelude::*;

verus! {

/// Marker for types that may be emitted as events.
///
/// The trait carries no behaviour; it only keeps arbitrary values from
/// being emitted by mistake.  Implementing it is trivial:
///
/// ```
/// use emark::event::Event;
///
/// struct SomeEvent;
///
/// impl Event for SomeEvent {}
/// ```
pub trait Event {

}

} // verus!
