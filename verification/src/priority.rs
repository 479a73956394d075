//! Event priority levels.
//!
//! The priority of an event decides the order in which deferred events are
//! handed out for execution: higher priority first.  From highest to lowest
//! the levels are `Interrupt`, `High`, `Normal` and `Routine`; `Normal` is
//! the default.  Each level also exists as a type-state marker, so a call
//! site can fix a priority at compile time.

use vstd::prelude::*;

verus! {

/// An event's priority level, from `Interrupt` (most urgent, processed
/// before anything else) down to `Routine` (processed after all others,
/// meant for self-refiring events).
#[derive(Debug, Clone, Copy, Hash, PartialEq, Eq, Structural)]
pub enum Priority {
    Interrupt,
    High,
    Normal,
    Routine,
}

impl Priority {
    /// The numeric rank of a priority: 0 for the most urgent (`Interrupt`)
    /// up to 3 for the least (`Routine`).  Lower rank runs first.
    pub open spec fn rank(self) -> int {
        match self {
            Priority::Interrupt => 0,
            Priority::High => 1,
            Priority::Normal => 2,
            Priority::Routine => 3,
        }
    }

    /// The level whose rank is `value`.  Only the four ranks exist, so the
    /// value must stay within them; use the `From<u8>` conversion for a
    /// total variant.
    pub fn from_rank(value: u8) -> (r: Self)
        requires
            value <= 3,
        ensures
            r.rank() == value,
    {
        match value {
            0 => Priority::Interrupt,
            1 => Priority::High,
            2 => Priority::Normal,
            _ => Priority::Routine,
        }
    }

    /// The level that follows this one, from most urgent to least, wrapping
    /// around from `Routine` back to `Interrupt`.
    pub fn next(&self) -> (r: Option<Priority>)
        ensures
            r == Some(
                match *self {
                    Priority::Interrupt => Priority::High,
                    Priority::High => Priority::Normal,
                    Priority::Normal => Priority::Routine,
                    Priority::Routine => Priority::Interrupt,
                },
            ),
    {
        match *self {
            Priority::Interrupt => Some(Priority::High),
            Priority::High => Some(Priority::Normal),
            Priority::Normal => Some(Priority::Routine),
            Priority::Routine => Some(Priority::Interrupt),
        }
    }
}

impl Default for Priority {
    /// `Normal` is the default priority.
    fn default() -> (r: Self)
        ensures
            r == Priority::Normal,
    {
        Priority::Normal
    }
}

impl From<u8> for Priority {
    /// The level whose rank is `value`.  A trait conversion must accept
    /// every byte, so values beyond the last rank yield `Routine`, the
    /// lowest level; [`Priority::from_rank`] is the variant whose contract
    /// admits the four ranks only.
    fn from(value: u8) -> (r: Self)
        ensures
            value <= 3 ==> r.rank() == value,
            value > 3 ==> r == Priority::Routine,
    {
        match value {
            0 => Priority::Interrupt,
            1 => Priority::High,
            2 => Priority::Normal,
            _ => Priority::Routine,
        }
    }
}

impl vstd::std_specs::convert::FromSpecImpl<u8> for Priority {
    open spec fn obeys_from_spec() -> bool {
        true
    }

    open spec fn from_spec(value: u8) -> Priority {
        if value == 0 {
            Priority::Interrupt
        } else if value == 1 {
            Priority::High
        } else if value == 2 {
            Priority::Normal
        } else {
            Priority::Routine
        }
    }
}

impl From<Priority> for u8 {
    /// A priority's rank as a byte.
    fn from(value: Priority) -> (r: u8)
        ensures
            r == value.rank(),
    {
        match value {
            Priority::Interrupt => 0,
            Priority::High => 1,
            Priority::Normal => 2,
            Priority::Routine => 3,
        }
    }
}

impl vstd::std_specs::convert::FromSpecImpl<Priority> for u8 {
    open spec fn obeys_from_spec() -> bool {
        true
    }

    open spec fn from_spec(value: Priority) -> u8 {
        value.rank() as u8
    }
}

impl From<Priority> for usize {
    /// A priority's rank as an index, for priority-bucketed storage.
    fn from(value: Priority) -> (r: usize)
        ensures
            r == value.rank(),
    {
        match value {
            Priority::Interrupt => 0,
            Priority::High => 1,
            Priority::Normal => 2,
            Priority::Routine => 3,
        }
    }
}

impl vstd::std_specs::convert::FromSpecImpl<Priority> for usize {
    open spec fn obeys_from_spec() -> bool {
        true
    }

    open spec fn from_spec(value: Priority) -> usize {
        value.rank() as usize
    }
}

impl PartialOrd for Priority {
    /// Priorities order by urgency: `Interrupt` is the greatest and
    /// `Routine` the least, the reverse of their rank order.
    fn partial_cmp(&self, other: &Self) -> (r: Option<core::cmp::Ordering>)
        ensures
            self.rank() == other.rank() ==> r == Some(core::cmp::Ordering::Equal),
            self.rank() < other.rank() ==> r == Some(core::cmp::Ordering::Greater),
            self.rank() > other.rank() ==> r == Some(core::cmp::Ordering::Less),
    {
        let a = u8::from(*self);
        let b = u8::from(*other);
        if a == b {
            Some(core::cmp::Ordering::Equal)
        } else if a < b {
            Some(core::cmp::Ordering::Greater)
        } else {
            Some(core::cmp::Ordering::Less)
        }
    }
}

impl vstd::std_specs::cmp::PartialOrdSpecImpl for Priority {
    open spec fn obeys_partial_cmp_spec() -> bool {
        true
    }

    open spec fn partial_cmp_spec(&self, other: &Self) -> Option<core::cmp::Ordering> {
        if self.rank() == other.rank() {
            Some(core::cmp::Ordering::Equal)
        } else if self.rank() < other.rank() {
            Some(core::cmp::Ordering::Greater)
        } else {
            Some(core::cmp::Ordering::Less)
        }
    }
}

/// A priority level fixed at compile time: the type names the level, so a
/// call site can pick it statically instead of passing a value.
pub trait PriorityState: Sized {
    /// The priority level this type stands for.
    spec fn spec_priority() -> Priority;

    /// The priority level this type stands for, as a runtime value.
    fn priority() -> (p: Priority)
        ensures
            p == Self::spec_priority(),
    ;
}

/// Type-state form of [`Priority::Interrupt`].
#[derive(Debug, Clone, Copy, PartialEq, Eq, Hash)]
pub struct Interrupt;

/// Type-state form of [`Priority::High`].
#[derive(Debug, Clone, Copy, PartialEq, Eq, Hash)]
pub struct High;

/// Type-state form of [`Priority::Normal`].
#[derive(Debug, Clone, Copy, PartialEq, Eq, Hash)]
pub struct Normal;

/// Type-state form of [`Priority::Routine`].
#[derive(Debug, Clone, Copy, PartialEq, Eq, Hash)]
pub struct Routine;

impl PriorityState for Interrupt {
    open spec fn spec_priority() -> Priority {
        Priority::Interrupt
    }

    fn priority() -> (p: Priority)
        ensures
            p == Priority::Interrupt,
    {
        Priority::Interrupt
    }
}

impl PriorityState for High {
    open spec fn spec_priority() -> Priority {
        Priority::High
    }

    fn priority() -> (p: Priority)
        ensures
            p == Priority::High,
    {
        Priority::High
    }
}

impl PriorityState for Normal {
    open spec fn spec_priority() -> Priority {
        Priority::Normal
    }

    fn priority() -> (p: Priority)
        ensures
            p == Priority::Normal,
    {
        Priority::Normal
    }
}

impl PriorityState for Routine {
    open spec fn spec_priority() -> Priority {
        Priority::Routine
    }

    fn priority() -> (p: Priority)
        ensures
            p == Priority::Routine,
    {
        Priority::Routine
    }
}

impl From<Interrupt> for Priority {
    fn from(_state: Interrupt) -> (r: Self)
        ensures
            r == Priority::Interrupt,
    {
        Priority::Interrupt
    }
}

impl vstd::std_specs::convert::FromSpecImpl<Interrupt> for Priority {
    open spec fn obeys_from_spec() -> bool {
        true
    }

    open spec fn from_spec(_state: Interrupt) -> Priority {
        Priority::Interrupt
    }
}

impl From<High> for Priority {
    fn from(_state: High) -> (r: Self)
        ensures
            r == Priority::High,
    {
        Priority::High
    }
}

impl vstd::std_specs::convert::FromSpecImpl<High> for Priority {
    open spec fn obeys_from_spec() -> bool {
        true
    }

    open spec fn from_spec(_state: High) -> Priority {
        Priority::High
    }
}

impl From<Normal> for Priority {
    fn from(_state: Normal) -> (r: Self)
        ensures
            r == Priority::Normal,
    {
        Priority::Normal
    }
}

impl vstd::std_specs::convert::FromSpecImpl<Normal> for Priority {
    open spec fn obeys_from_spec() -> bool {
        true
    }

    open spec fn from_spec(_state: Normal) -> Priority {
        Priority::Normal
    }
}

impl From<Routine> for Priority {
    fn from(_state: Routine) -> (r: Self)
        ensures
            r == Priority::Routine,
    {
        Priority::Routine
    }
}

impl vstd::std_specs::convert::FromSpecImpl<Routine> for Priority {
    open spec fn obeys_from_spec() -> bool {
        true
    }

    open spec fn from_spec(_state: Routine) -> Priority {
        Priority::Routine
    }
}

} // verus!
