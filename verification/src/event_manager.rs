//! The deferring event queue: events are emitted with a priority, batched by
//! event type, and handed out highest priority first.
//!
//! Emitted events are not executed at once.  Each emission appends the
//! payload to the pending batch of its event type and queues the type at the
//! given priority.  Emitting a type that is already queued at a lower
//! priority upgrades it: the type keeps one place in the queue, at the
//! highest priority it was emitted with.  `next_execution` then yields the
//! whole batch of every event type queued at the most urgent pending level,
//! in emission order, and removes it from the queue.
//!
//! Event types are identified by a type key, like resources in the store.

use vstd::prelude::*;

use crate::priority::{Priority, PriorityState};

verus! {

/// One queued entry: an event type together with the priority it is
/// currently queued at.
#[derive(Clone, Copy, Debug, PartialEq, Eq, Structural)]
pub struct EmittedEventInfo {
    pub priority: Priority,
    pub event_key: u64,
}

spec fn akeys_unique<T>(s: Seq<(u64, T)>) -> bool {
    forall|i: int, j: int| 0 <= i < j < s.len() ==> s[i].0 != s[j].0
}

/// Association lookup: the value stored under a key, if any.
spec fn alookup<T>(s: Seq<(u64, T)>, key: u64) -> Option<T>
    decreases s.len(),
{
    if s.len() == 0 {
        None
    } else if s.last().0 == key {
        Some(s.last().1)
    } else {
        alookup(s.drop_last(), key)
    }
}

proof fn lemma_alookup_at<T>(s: Seq<(u64, T)>, i: int)
    requires
        akeys_unique(s),
        0 <= i < s.len(),
    ensures
        alookup(s, s[i].0) == Some(s[i].1),
    decreases s.len(),
{
    if i < s.len() - 1 {
        assert(s.last().0 != s[i].0);
        lemma_alookup_at(s.drop_last(), i);
        assert(s.drop_last()[i] == s[i]);
    }
}

proof fn lemma_alookup_absent<T>(s: Seq<(u64, T)>, key: u64)
    requires
        forall|j: int| 0 <= j < s.len() ==> (#[trigger] s[j]).0 != key,
    ensures
        alookup(s, key) is None,
    decreases s.len(),
{
    if s.len() > 0 {
        lemma_alookup_absent(s.drop_last(), key);
    }
}

proof fn lemma_alookup_push<T>(s: Seq<(u64, T)>, e: (u64, T), x: u64)
    ensures
        alookup(s.push(e), x) == if e.0 == x {
            Some(e.1)
        } else {
            alookup(s, x)
        },
{
    assert(s.push(e).drop_last() =~= s);
    assert(s.push(e).last() == e);
}

proof fn lemma_alookup_update<T>(s: Seq<(u64, T)>, i: int, e: (u64, T), x: u64)
    requires
        akeys_unique(s),
        0 <= i < s.len(),
        e.0 == s[i].0,
    ensures
        alookup(s.update(i, e), x) == if e.0 == x {
            Some(e.1)
        } else {
            alookup(s, x)
        },
    decreases s.len(),
{
    let t = s.update(i, e);
    if i == s.len() - 1 {
        assert(t.drop_last() =~= s.drop_last());
        assert(t.last() == e);
    } else {
        assert(t.drop_last() =~= s.drop_last().update(i, e));
        assert(t.last() == s.last());
        assert(s.drop_last()[i] == s[i]);
        lemma_alookup_update(s.drop_last(), i, e, x);
        assert(s.last().0 != s[i].0);
    }
}

proof fn lemma_alookup_remove<T>(s: Seq<(u64, T)>, i: int, x: u64)
    requires
        akeys_unique(s),
        0 <= i < s.len(),
    ensures
        alookup(s.remove(i), x) == if s[i].0 == x {
            None::<T>
        } else {
            alookup(s, x)
        },
        akeys_unique(s.remove(i)),
    decreases s.len(),
{
    let t = s.remove(i);
    assert(akeys_unique(t)) by {
        assert forall|a: int, b: int| 0 <= a < b < t.len() implies t[a].0 != t[b].0 by {
            let a0 = if a < i {
                a
            } else {
                a + 1
            };
            let b0 = if b < i {
                b
            } else {
                b + 1
            };
            assert(t[a] == s[a0] && t[b] == s[b0]);
        }
    }
    if i == s.len() - 1 {
        assert(t =~= s.drop_last());
        if s[i].0 == x {
            assert forall|j: int| 0 <= j < t.len() implies (#[trigger] t[j]).0 != x by {
                assert(s[j].0 != s[i].0);
            }
            lemma_alookup_absent(t, x);
        }
    } else {
        assert(t.drop_last() =~= s.drop_last().remove(i));
        assert(t.last() == s.last());
        assert(s.drop_last()[i] == s[i]);
        lemma_alookup_remove(s.drop_last(), i, x);
        assert(s.last().0 != s[i].0);
    }
}

/// The pending batch stored under a key, seen as a sequence.
spec fn alookup_view<E>(s: Seq<(u64, Vec<E>)>, key: u64) -> Option<Seq<E>> {
    match alookup(s, key) {
        Some(batch) => Some(batch@),
        None => None,
    }
}

/// The priority queued for an event type, read off the queue order.
spec fn bus_lookup(s: Seq<EmittedEventInfo>, key: u64) -> Option<Priority>
    decreases s.len(),
{
    if s.len() == 0 {
        None
    } else if s.last().event_key == key {
        Some(s.last().priority)
    } else {
        bus_lookup(s.drop_last(), key)
    }
}

spec fn bus_keys_unique(s: Seq<EmittedEventInfo>) -> bool {
    forall|i: int, j: int| 0 <= i < j < s.len() ==> s[i].event_key != s[j].event_key
}

proof fn lemma_bus_lookup_at(s: Seq<EmittedEventInfo>, i: int)
    requires
        bus_keys_unique(s),
        0 <= i < s.len(),
    ensures
        bus_lookup(s, s[i].event_key) == Some(s[i].priority),
    decreases s.len(),
{
    if i < s.len() - 1 {
        assert(s.last().event_key != s[i].event_key);
        lemma_bus_lookup_at(s.drop_last(), i);
        assert(s.drop_last()[i] == s[i]);
    }
}

proof fn lemma_bus_lookup_absent(s: Seq<EmittedEventInfo>, key: u64)
    requires
        forall|j: int| 0 <= j < s.len() ==> (#[trigger] s[j]).event_key != key,
    ensures
        bus_lookup(s, key) is None,
    decreases s.len(),
{
    if s.len() > 0 {
        lemma_bus_lookup_absent(s.drop_last(), key);
    }
}

proof fn lemma_bus_lookup_push(s: Seq<EmittedEventInfo>, e: EmittedEventInfo, x: u64)
    ensures
        bus_lookup(s.push(e), x) == if e.event_key == x {
            Some(e.priority)
        } else {
            bus_lookup(s, x)
        },
{
    assert(s.push(e).drop_last() =~= s);
    assert(s.push(e).last() == e);
}

proof fn lemma_bus_lookup_remove(s: Seq<EmittedEventInfo>, i: int, x: u64)
    requires
        bus_keys_unique(s),
        0 <= i < s.len(),
    ensures
        bus_lookup(s.remove(i), x) == if s[i].event_key == x {
            None::<Priority>
        } else {
            bus_lookup(s, x)
        },
        bus_keys_unique(s.remove(i)),
    decreases s.len(),
{
    let t = s.remove(i);
    assert(bus_keys_unique(t)) by {
        assert forall|a: int, b: int|
            0 <= a < b < t.len() implies t[a].event_key != t[b].event_key by {
            let a0 = if a < i {
                a
            } else {
                a + 1
            };
            let b0 = if b < i {
                b
            } else {
                b + 1
            };
            assert(t[a] == s[a0] && t[b] == s[b0]);
        }
    }
    if i == s.len() - 1 {
        assert(t =~= s.drop_last());
        if s[i].event_key == x {
            assert forall|j: int| 0 <= j < t.len() implies (#[trigger] t[j]).event_key != x by {
                assert(s[j].event_key != s[i].event_key);
            }
            lemma_bus_lookup_absent(t, x);
        }
    } else {
        assert(t.drop_last() =~= s.drop_last().remove(i));
        assert(t.last() == s.last());
        assert(s.drop_last()[i] == s[i]);
        lemma_bus_lookup_remove(s.drop_last(), i, x);
        assert(s.last().event_key != s[i].event_key);
    }
}

/// The most urgent rank among the queued entries; one past the last rank
/// when nothing is queued.
spec fn bus_min_rank(s: Seq<EmittedEventInfo>) -> int
    decreases s.len(),
{
    if s.len() == 0 {
        4
    } else if s.last().priority.rank() < bus_min_rank(s.drop_last()) {
        s.last().priority.rank()
    } else {
        bus_min_rank(s.drop_last())
    }
}

proof fn lemma_bus_min_rank_le(s: Seq<EmittedEventInfo>, i: int)
    requires
        0 <= i < s.len(),
    ensures
        bus_min_rank(s) <= s[i].priority.rank(),
    decreases s.len(),
{
    if i < s.len() - 1 {
        lemma_bus_min_rank_le(s.drop_last(), i);
        assert(s.drop_last()[i] == s[i]);
    }
}

proof fn lemma_bus_min_rank_bounds(s: Seq<EmittedEventInfo>)
    ensures
        0 <= bus_min_rank(s) <= 4,
        bus_min_rank(s) < 4 ==> s.len() > 0,
    decreases s.len(),
{
    if s.len() > 0 {
        lemma_bus_min_rank_bounds(s.drop_last());
    }
}

proof fn lemma_bus_min_rank_achieved(s: Seq<EmittedEventInfo>)
    requires
        s.len() > 0,
    ensures
        exists|i: int| 0 <= i < s.len() && (#[trigger] s[i]).priority.rank() == bus_min_rank(s),
    decreases s.len(),
{
    if s.len() == 1 {
        assert(s[0].priority.rank() == bus_min_rank(s));
    } else if s.last().priority.rank() < bus_min_rank(s.drop_last()) {
        assert(s[s.len() - 1].priority.rank() == bus_min_rank(s));
    } else {
        lemma_bus_min_rank_achieved(s.drop_last());
        let i = choose|i: int|
            0 <= i < s.drop_last().len() && (#[trigger] s.drop_last()[i]).priority.rank()
                == bus_min_rank(s.drop_last());
        assert(s[i].priority.rank() == bus_min_rank(s));
    }
}

proof fn lemma_bus_lookup_some_exists(s: Seq<EmittedEventInfo>, key: u64)
    requires
        bus_lookup(s, key) is Some,
    ensures
        exists|i: int| 0 <= i < s.len() && (#[trigger] s[i]).event_key == key && Some(
            s[i].priority,
        ) == bus_lookup(s, key),
    decreases s.len(),
{
    if s.last().event_key == key {
        assert(s[s.len() - 1].event_key == key);
    } else {
        lemma_bus_lookup_some_exists(s.drop_last(), key);
        let i = choose|i: int|
            0 <= i < s.drop_last().len() && (#[trigger] s.drop_last()[i]).event_key == key
                && Some(s.drop_last()[i].priority) == bus_lookup(s.drop_last(), key);
        assert(s[i].event_key == key && Some(s[i].priority) == bus_lookup(s, key));
    }
}

/// Whether some element of an execution batch carries the event type `key`.
pub open spec fn batch_has<E>(s: Seq<(EmittedEventInfo, Vec<E>)>, key: u64) -> bool {
    exists|t: int| 0 <= t < s.len() && (#[trigger] s[t]).0.event_key == key
}

/// The deferring event queue.
///
/// Abstractly, a pair of maps over event type keys:
/// [`EventManager::pending_of`] gives the batched payloads of an emitted
/// type, and [`EventManager::queued_of`] the priority it is currently
/// queued at.
pub struct EventManager<E> {
    events: Vec<(u64, Vec<E>)>,
    events_bus: Vec<EmittedEventInfo>,
}

impl<E> EventManager<E> {
    /// The pending batch of the event type `key`, in emission order, or
    /// `None` when nothing of that type is queued.
    pub closed spec fn pending_of(self, key: u64) -> Option<Seq<E>> {
        match alookup(self.events@, key) {
            Some(batch) => Some(batch@),
            None => None,
        }
    }

    /// The priority the event type `key` is currently queued at, or `None`
    /// when nothing of that type is queued.
    pub closed spec fn queued_of(self, key: u64) -> Option<Priority> {
        bus_lookup(self.events_bus@, key)
    }

    /// The most urgent rank among the queued types; one past the last rank
    /// when nothing is queued.  The next execution batch drains exactly the
    /// types queued at this rank.
    pub closed spec fn min_rank(self) -> int {
        bus_min_rank(self.events_bus@)
    }

    /// Well-formedness: each emitted type holds one batch and one place in
    /// the queue order, and every batch is non-empty.
    pub closed spec fn wf(self) -> bool {
        &&& akeys_unique(self.events@)
        &&& bus_keys_unique(self.events_bus@)
        &&& forall|k: u64|
            (#[trigger] bus_lookup(self.events_bus@, k)) is Some <==> alookup(self.events@, k)
                is Some
        &&& forall|i: int|
            0 <= i < self.events@.len() ==> (#[trigger] self.events@[i]).1@.len() > 0
    }

    /// A fresh queue with nothing pending.
    pub fn new() -> (m: Self)
        ensures
            m.wf(),
            forall|k: u64| (#[trigger] m.pending_of(k)) is None,
            forall|k: u64| (#[trigger] m.queued_of(k)) is None,
    {
        EventManager { events: Vec::new(), events_bus: Vec::new() }
    }

    fn find_event(&self, key: u64) -> (r: Option<usize>)
        ensures
            match r {
                Some(i) => i < self.events@.len() && self.events@[i as int].0 == key,
                None => forall|j: int|
                    0 <= j < self.events@.len() ==> (#[trigger] self.events@[j]).0 != key,
            },
    {
        let mut i: usize = 0;
        while i < self.events.len()
            invariant
                i <= self.events@.len(),
                forall|j: int| 0 <= j < i ==> (#[trigger] self.events@[j]).0 != key,
            decreases self.events@.len() - i,
        {
            if self.events[i].0 == key {
                return Some(i);
            }
            i = i + 1;
        }
        None
    }

    fn find_bus(&self, key: u64) -> (r: Option<usize>)
        ensures
            match r {
                Some(i) => i < self.events_bus@.len() && self.events_bus@[i as int].event_key
                    == key,
                None => forall|j: int|
                    0 <= j < self.events_bus@.len() ==> (#[trigger] self.events_bus@[j]).event_key
                        != key,
            },
    {
        let mut i: usize = 0;
        while i < self.events_bus.len()
            invariant
                i <= self.events_bus@.len(),
                forall|j: int| 0 <= j < i ==> (#[trigger] self.events_bus@[j]).event_key != key,
            decreases self.events_bus@.len() - i,
        {
            if self.events_bus[i].event_key == key {
                return Some(i);
            }
            i = i + 1;
        }
        None
    }

    /// The priority an event type emitted now would end up queued at: a
    /// type already queued keeps its place unless the new emission is more
    /// urgent — the priority only ever upgrades.
    pub open spec fn upgraded(self, key: u64, priority: Priority) -> Priority {
        match self.queued_of(key) {
            Some(p) => if p.rank() <= priority.rank() {
                p
            } else {
                priority
            },
            None => priority,
        }
    }

    fn append_event(&mut self, event_key: u64, event: E)
        requires
            akeys_unique(old(self).events@),
            forall|i: int|
                0 <= i < old(self).events@.len() ==> (#[trigger] old(self).events@[i]).1@.len()
                    > 0,
        ensures
            akeys_unique(final(self).events@),
            final(self).events_bus == old(self).events_bus,
            forall|i: int|
                0 <= i < final(self).events@.len() ==> (#[trigger] final(self).events@[i]).1@.len() > 0,
            alookup(final(self).events@, event_key) is Some,
            final(self).pending_of(event_key) == Some(
                match old(self).pending_of(event_key) {
                    Some(batch) => batch.push(event),
                    None => seq![event],
                },
            ),
            forall|k: u64|
                k != event_key ==> #[trigger] alookup(final(self).events@, k) == alookup(
                    old(self).events@,
                    k,
                ),
    {
        let ghost ev0 = self.events@;
        match self.find_event(event_key) {
            Some(i) => {
                proof {
                    lemma_alookup_at(ev0, i as int);
                }
                self.events[i].1.push(event);
                proof {
                    let ev1 = self.events@;
                    assert(ev1 =~= ev0.update(i as int, (event_key, ev1[i as int].1)));
                    assert(akeys_unique(ev1)) by {
                        assert forall|a: int, b: int|
                            0 <= a < b < ev1.len() implies ev1[a].0 != ev1[b].0 by {
                            assert(ev1[a].0 == ev0[a].0 && ev1[b].0 == ev0[b].0);
                        }
                    }
                    assert forall|x: u64| #[trigger] alookup(ev1, x) == (if x == event_key {
                        Some(ev1[i as int].1)
                    } else {
                        alookup(ev0, x)
                    }) by {
                        lemma_alookup_update(ev0, i as int, (event_key, ev1[i as int].1), x);
                    }
                    assert(ev1[i as int].1@ =~= ev0[i as int].1@.push(event));
                }
            },
            None => {
                proof {
                    lemma_alookup_absent(ev0, event_key);
                }
                let mut batch: Vec<E> = Vec::new();
                batch.push(event);
                let ghost bv = batch@;
                self.events.push((event_key, batch));
                proof {
                    let ev1 = self.events@;
                    assert(akeys_unique(ev1)) by {
                        assert forall|a: int, b: int|
                            0 <= a < b < ev1.len() implies ev1[a].0 != ev1[b].0 by {
                            if b == ev1.len() - 1 {
                                assert(ev0[a].0 != event_key);
                            } else {
                                assert(ev0[a].0 != ev0[b].0);
                            }
                        }
                    }
                    assert forall|x: u64| #[trigger] alookup(ev1, x) == (if x == event_key {
                        Some(ev1[ev1.len() - 1].1)
                    } else {
                        alookup(ev0, x)
                    }) by {
                        lemma_alookup_push(ev0, (event_key, ev1[ev1.len() - 1].1), x);
                    }
                    assert(bv =~= seq![event]);
                }
            },
        }
    }

    fn queue_event(&mut self, event_key: u64, priority: Priority)
        requires
            bus_keys_unique(old(self).events_bus@),
        ensures
            final(self).events == old(self).events,
            bus_keys_unique(final(self).events_bus@),
            final(self).queued_of(event_key) == Some(old(self).upgraded(event_key, priority)),
            forall|k: u64|
                k != event_key ==> #[trigger] final(self).queued_of(k) == old(self).queued_of(k),
    {
        let ghost bus0 = self.events_bus@;
        match self.find_bus(event_key) {
            Some(b) => {
                let old_priority = self.events_bus[b].priority;
                proof {
                    lemma_bus_lookup_at(bus0, b as int);
                }
                if u8::from(priority) < u8::from(old_priority) {
                    let _dropped = self.events_bus.remove(b);
                    let ghost bus1 = self.events_bus@;
                    self.events_bus.push(EmittedEventInfo { priority, event_key });
                    proof {
                        let bus2 = self.events_bus@;
                        assert forall|x: u64| #[trigger] bus_lookup(bus2, x) == (if x
                            == event_key {
                            Some(priority)
                        } else {
                            bus_lookup(bus0, x)
                        }) by {
                            lemma_bus_lookup_remove(bus0, b as int, x);
                            lemma_bus_lookup_push(
                                bus1,
                                EmittedEventInfo { priority, event_key },
                                x,
                            );
                        }
                        assert(bus_keys_unique(bus2)) by {
                            lemma_bus_lookup_remove(bus0, b as int, event_key);
                            assert forall|a: int, c: int|
                                0 <= a < c < bus2.len() implies bus2[a].event_key
                                != bus2[c].event_key by {
                                if c == bus2.len() - 1 {
                                    if bus2[a].event_key == event_key {
                                        lemma_bus_lookup_at(bus1, a);
                                    }
                                } else {
                                    assert(bus2[a] == bus1[a] && bus2[c] == bus1[c]);
                                }
                            }
                        }
                    }
                }
            },
            None => {
                proof {
                    lemma_bus_lookup_absent(bus0, event_key);
                }
                self.events_bus.push(EmittedEventInfo { priority, event_key });
                proof {
                    let bus1 = self.events_bus@;
                    assert forall|x: u64| #[trigger] bus_lookup(bus1, x) == (if x == event_key {
                        Some(priority)
                    } else {
                        bus_lookup(bus0, x)
                    }) by {
                        lemma_bus_lookup_push(bus0, EmittedEventInfo { priority, event_key }, x);
                    }
                    assert(bus_keys_unique(bus1)) by {
                        assert forall|a: int, c: int|
                            0 <= a < c < bus1.len() implies bus1[a].event_key
                            != bus1[c].event_key by {
                            if c == bus1.len() - 1 {
                                assert(bus0[a].event_key != event_key);
                            } else {
                                assert(bus0[a].event_key != bus0[c].event_key);
                            }
                        }
                    }
                }
            },
        }
    }

    /// Emit an event with the given priority: append the payload to the
    /// type's pending batch and queue the type, upgrading its priority when
    /// it is already queued lower.  Always answers with the event's key.
    pub fn emit_priority(&mut self, event_key: u64, event: E, priority: Priority) -> (r: Option<
        u64,
    >)
        requires
            old(self).wf(),
        ensures
            final(self).wf(),
            r == Some(event_key),
            final(self).pending_of(event_key) == Some(
                match old(self).pending_of(event_key) {
                    Some(batch) => batch.push(event),
                    None => seq![event],
                },
            ),
            final(self).queued_of(event_key) == Some(old(self).upgraded(event_key, priority)),
            forall|k: u64|
                k != event_key ==> #[trigger] final(self).pending_of(k) == old(self).pending_of(
                    k,
                ),
            forall|k: u64|
                k != event_key ==> #[trigger] final(self).queued_of(k) == old(self).queued_of(k),
    {
        self.append_event(event_key, event);
        let ghost mid = *self;
        self.queue_event(event_key, priority);
        proof {
            assert forall|k: u64|
                (#[trigger] bus_lookup(self.events_bus@, k)) is Some <==> alookup(
                    self.events@,
                    k,
                ) is Some by {
                assert(self.events == mid.events);
                assert(mid.events_bus == old(self).events_bus);
                if k != event_key {
                    assert(alookup(mid.events@, k) == alookup(old(self).events@, k));
                    assert(self.queued_of(k) == mid.queued_of(k));
                    assert(bus_lookup(old(self).events_bus@, k) is Some <==> alookup(
                        old(self).events@,
                        k,
                    ) is Some);
                } else {
                    assert(alookup(mid.events@, event_key) is Some);
                    assert(self.queued_of(event_key) is Some);
                }
            }
        }
        Some(event_key)
    }

    /// Emit an event with normal priority.
    pub fn emit(&mut self, event_key: u64, event: E) -> (r: Option<u64>)
        requires
            old(self).wf(),
        ensures
            final(self).wf(),
            r == Some(event_key),
            final(self).pending_of(event_key) == Some(
                match old(self).pending_of(event_key) {
                    Some(batch) => batch.push(event),
                    None => seq![event],
                },
            ),
            final(self).queued_of(event_key) == Some(
                old(self).upgraded(event_key, Priority::Normal),
            ),
            forall|k: u64|
                k != event_key ==> #[trigger] final(self).pending_of(k) == old(self).pending_of(
                    k,
                ),
            forall|k: u64|
                k != event_key ==> #[trigger] final(self).queued_of(k) == old(self).queued_of(k),
    {
        self.emit_priority(event_key, event, Priority::Normal)
    }


    /// Whether the event type `key` is queued at exactly the given rank.
    pub open spec fn queued_at_rank(self, key: u64, rank: int) -> bool {
        match self.queued_of(key) {
            Some(p) => p.rank() == rank,
            None => false,
        }
    }

    /// What the most urgent pending rank means, stated against the queue
    /// map: it stays within the four ranks (with 4 standing for an empty
    /// queue), it bounds every queued priority from below, it is past the
    /// last rank exactly when nothing is queued, and whenever something is
    /// queued some type is queued at exactly this rank.
    pub proof fn lemma_min_rank_queued(self, key: u64)
        requires
            self.wf(),
        ensures
            0 <= self.min_rank() <= 4,
            self.queued_of(key) matches Some(p) ==> self.min_rank() <= p.rank(),
            self.min_rank() == 4 ==> self.queued_of(key) is None,
            self.min_rank() < 4 ==> exists|k2: u64|
                (#[trigger] self.queued_of(k2)) matches Some(p) && p.rank() == self.min_rank(),
    {
        lemma_bus_min_rank_bounds(self.events_bus@);
        if self.queued_of(key) is Some {
            lemma_bus_lookup_some_exists(self.events_bus@, key);
            let i = choose|i: int|
                0 <= i < self.events_bus@.len() && (#[trigger] self.events_bus@[i]).event_key
                    == key && Some(self.events_bus@[i].priority) == bus_lookup(
                    self.events_bus@,
                    key,
                );
            lemma_bus_min_rank_le(self.events_bus@, i);
        }
        if self.min_rank() < 4 {
            lemma_bus_min_rank_achieved(self.events_bus@);
            let i = choose|i: int|
                0 <= i < self.events_bus@.len() && (#[trigger] self.events_bus@[i]).priority.rank()
                    == bus_min_rank(self.events_bus@);
            lemma_bus_lookup_at(self.events_bus@, i);
            assert(self.queued_of(self.events_bus@[i].event_key) == Some(
                self.events_bus@[i].priority,
            ));
        }
    }

    /// The next batch to execute, or nothing when nothing is queued.
    ///
    /// The batch holds every event type queued at the most urgent pending
    /// rank — each with its queued priority and its whole pending batch of
    /// payloads — and those types leave the queue entirely; every type
    /// queued at a less urgent rank stays untouched.  A type that was
    /// emitted at several priorities appears once, at the highest of them.
    #[verifier::loop_isolation(false)]
    pub fn next_execution(&mut self) -> (r: Option<Vec<(EmittedEventInfo, Vec<E>)>>)
        requires
            old(self).wf(),
        ensures
            final(self).wf(),
            0 <= old(self).min_rank() <= 4,
            forall|k: u64| (#[trigger] old(self).queued_of(k)) matches Some(p) ==> old(self).min_rank() <= p.rank(),
            r is None <==> old(self).min_rank() == 4,
            r is None <==> (forall|k: u64| (#[trigger] old(self).queued_of(k)) is None),
            r is None ==> *final(self) == *old(self),
            r matches Some(batch) ==> batch@.len() > 0 && (forall|t: int|
                0 <= t < batch@.len() ==> (#[trigger] batch@[t]).0.priority.rank() == old(self).min_rank()
                    && old(self).queued_of(batch@[t].0.event_key) == Some(batch@[t].0.priority)
                    && old(self).pending_of(batch@[t].0.event_key) == Some(batch@[t].1@)
                    && final(self).queued_of(batch@[t].0.event_key) is None
                    && final(self).pending_of(batch@[t].0.event_key) is None) && (forall|t1: int, t2: int|
                0 <= t1 < t2 < batch@.len() ==> batch@[t1].0.event_key != batch@[t2].0.event_key)
                && (forall|k: u64|
                !old(self).queued_at_rank(k, old(self).min_rank())
                    ==> #[trigger] final(self).queued_of(k) == old(self).queued_of(k)) && (forall|k: u64|
                !old(self).queued_at_rank(k, old(self).min_rank())
                    ==> #[trigger] final(self).pending_of(k) == old(self).pending_of(k)) && (forall|k: u64|
                old(self).queued_at_rank(k, old(self).min_rank()) ==> #[trigger] batch_has(
                    batch@,
                    k,
                )),
    {
        let ghost bus0 = self.events_bus@;
        proof {
            lemma_bus_min_rank_bounds(bus0);
            assert forall|k: u64|
                (#[trigger] self.queued_of(k)) matches Some(p) ==> self.min_rank()
                    <= p.rank() by {
                self.lemma_min_rank_queued(k);
            }
        }
        if self.events_bus.len() == 0 {
            proof {
                assert forall|k: u64| (#[trigger] self.queued_of(k)) is None by {}
            }
            return None;
        }
        let mut best: u8 = 4;
        let mut i: usize = 0;
        while i < self.events_bus.len()
            invariant
                *self == *old(self),
                i <= bus0.len(),
                best as int == bus_min_rank(bus0.take(i as int)),
            decreases bus0.len() - i,
        {
            proof {
                assert(bus0.take(i + 1).drop_last() =~= bus0.take(i as int));
                assert(bus0.take(i + 1).last() == bus0[i as int]);
            }
            let rank = u8::from(self.events_bus[i].priority);
            if rank < best {
                best = rank;
            }
            i = i + 1;
        }
        proof {
            assert(bus0.take(bus0.len() as int) =~= bus0);
            lemma_bus_min_rank_le(bus0, 0);
            lemma_bus_min_rank_bounds(bus0);
        }
        let mut batch: Vec<(EmittedEventInfo, Vec<E>)> = Vec::new();
        let mut idx: usize = 0;
        while idx < self.events_bus.len()
            invariant
                self.wf(),
                idx <= self.events_bus@.len(),
                forall|j: int|
                    0 <= j < idx ==> (#[trigger] self.events_bus@[j]).priority.rank() != best,
                forall|k: u64|
                    !batch_has(batch@, k) ==> (#[trigger] bus_lookup(self.events_bus@, k)) == old(self).queued_of(k)
                        && alookup_view(self.events@, k) == old(self).pending_of(k),
                forall|t: int|
                    0 <= t < batch@.len() ==> (#[trigger] batch@[t]).0.priority.rank() == best
                        && old(self).queued_of(batch@[t].0.event_key) == Some(batch@[t].0.priority)
                        && old(self).pending_of(batch@[t].0.event_key) == Some(batch@[t].1@)
                        && bus_lookup(self.events_bus@, batch@[t].0.event_key) is None
                        && alookup(self.events@, batch@[t].0.event_key) is None,
                forall|t1: int, t2: int|
                    0 <= t1 < t2 < batch@.len() ==> batch@[t1].0.event_key
                        != batch@[t2].0.event_key,
            decreases self.events_bus@.len() - idx,
        {
            let ghost cur_bus = self.events_bus@;
            let ghost cur_ev = self.events@;
            let info = self.events_bus[idx];
            let rank = u8::from(info.priority);
            if rank == best {
                proof {
                    lemma_bus_lookup_at(cur_bus, idx as int);
                    assert(!batch_has(batch@, info.event_key)) by {
                        if batch_has(batch@, info.event_key) {
                            let t = choose|t: int|
                                0 <= t < batch@.len() && (#[trigger] batch@[t]).0.event_key
                                    == info.event_key;
                            assert(bus_lookup(cur_bus, batch@[t].0.event_key) is None);
                        }
                    }
                    assert(old(self).queued_of(info.event_key) == Some(info.priority));
                }
                let j = match self.find_event(info.event_key) {
                    Some(j) => j,
                    None => {
                        proof {
                            lemma_alookup_absent(self.events@, info.event_key);
                        }
                        vstd::pervasive::unreached()
                    },
                };
                proof {
                    lemma_alookup_at(cur_ev, j as int);
                    assert(old(self).pending_of(info.event_key) == Some(cur_ev[j as int].1@)) by {
                        assert(alookup_view(cur_ev, info.event_key) == old(self).pending_of(
                            info.event_key,
                        ));
                    }
                }
                let _removed = self.events_bus.remove(idx);
                let entry = self.events.remove(j);
                let ghost batch0 = batch@;
                batch.push((info, entry.1));
                proof {
                    assert forall|x: u64| #[trigger]
                        bus_lookup(self.events_bus@, x) == (if x == info.event_key {
                            None::<Priority>
                        } else {
                            bus_lookup(cur_bus, x)
                        }) by {
                        lemma_bus_lookup_remove(cur_bus, idx as int, x);
                    }
                    assert forall|x: u64| #[trigger]
                        alookup(self.events@, x) == (if x == info.event_key {
                            None::<Vec<E>>
                        } else {
                            alookup(cur_ev, x)
                        }) by {
                        lemma_alookup_remove(cur_ev, j as int, x);
                    }
                    assert(bus_keys_unique(self.events_bus@) && akeys_unique(self.events@)) by {
                        lemma_bus_lookup_remove(cur_bus, idx as int, info.event_key);
                        lemma_alookup_remove(cur_ev, j as int, info.event_key);
                    }
                    assert forall|i2: int|
                        0 <= i2 < self.events@.len() implies (#[trigger] self.events@[i2]).1@.len()
                        > 0 by {
                        if i2 < j {
                            assert(self.events@[i2] == cur_ev[i2]);
                        } else {
                            assert(self.events@[i2] == cur_ev[i2 + 1]);
                        }
                    }
                    assert(batch@[batch@.len() - 1] == (info, entry.1));
                    assert(entry == cur_ev[j as int]);
                    assert forall|t: int|
                        0 <= t < batch@.len() implies (#[trigger] batch@[t]).0.priority.rank()
                        == best && old(self).queued_of(batch@[t].0.event_key) == Some(
                        batch@[t].0.priority,
                    ) && old(self).pending_of(batch@[t].0.event_key) == Some(batch@[t].1@)
                        && bus_lookup(self.events_bus@, batch@[t].0.event_key) is None && alookup(
                        self.events@,
                        batch@[t].0.event_key,
                    ) is None by {
                        if t < batch@.len() - 1 {
                            assert(batch@[t] == batch0[t]);
                            assert(batch@[t].0.event_key != info.event_key) by {
                                if batch0[t].0.event_key == info.event_key {
                                    assert(batch_has(batch0, info.event_key));
                                }
                            }
                        }
                    }
                    assert forall|k: u64|
                        !batch_has(batch@, k) implies (#[trigger] bus_lookup(
                        self.events_bus@,
                        k,
                    )) == old(self).queued_of(k) && alookup_view(self.events@, k) == old(self).pending_of(k) by {
                        assert(!batch_has(batch0, k)) by {
                            if batch_has(batch0, k) {
                                let t = choose|t: int|
                                    0 <= t < batch0.len() && (#[trigger] batch0[t]).0.event_key
                                        == k;
                                assert(batch@[t].0.event_key == k);
                            }
                        }
                        assert(k != info.event_key) by {
                            assert(batch@[batch@.len() - 1].0.event_key == info.event_key);
                        }
                        assert(bus_lookup(cur_bus, k) == old(self).queued_of(k));
                        assert(alookup_view(cur_ev, k) == old(self).pending_of(k));
                        assert(alookup(self.events@, k) == alookup(cur_ev, k));
                    }
                    assert forall|t1: int, t2: int|
                        0 <= t1 < t2 < batch@.len() implies batch@[t1].0.event_key
                        != batch@[t2].0.event_key by {
                        if t2 == batch@.len() - 1 {
                            if batch0[t1].0.event_key == info.event_key {
                                assert(batch_has(batch0, info.event_key));
                            }
                        } else {
                            assert(batch@[t1] == batch0[t1] && batch@[t2] == batch0[t2]);
                        }
                    }
                    assert forall|j2: int|
                        0 <= j2 < idx implies (#[trigger] self.events_bus@[j2]).priority.rank()
                        != best by {
                        assert(self.events_bus@[j2] == cur_bus[j2]);
                    }
                }
            } else {
                idx = idx + 1;
            }
        }
        proof {
            assert forall|k: u64|
                old(self).queued_at_rank(k, old(self).min_rank()) implies #[trigger] batch_has(
                batch@,
                k,
            ) by {
                if !batch_has(batch@, k) {
                    assert(bus_lookup(self.events_bus@, k) == old(self).queued_of(k));
                    lemma_bus_lookup_some_exists(self.events_bus@, k);
                    let i2 = choose|i2: int|
                        0 <= i2 < self.events_bus@.len() && (#[trigger] self.events_bus@[i2]).event_key
                            == k && Some(self.events_bus@[i2].priority) == bus_lookup(
                            self.events_bus@,
                            k,
                        );
                    assert(self.events_bus@[i2].priority.rank() != best);
                }
            }
            lemma_bus_min_rank_achieved(bus0);
            let i2 = choose|i2: int|
                0 <= i2 < bus0.len() && (#[trigger] bus0[i2]).priority.rank() == bus_min_rank(
                    bus0,
                );
            lemma_bus_lookup_at(bus0, i2);
            assert(old(self).queued_of(bus0[i2].event_key) == Some(bus0[i2].priority));
            assert(!(forall|k: u64| (#[trigger] old(self).queued_of(k)) is None));
            assert(batch@.len() > 0) by {
                assert(old(self).queued_at_rank(bus0[i2].event_key, old(self).min_rank()));
                assert(batch_has(batch@, bus0[i2].event_key));
            }
            assert forall|k: u64|
                !old(self).queued_at_rank(k, old(self).min_rank()) implies #[trigger] self.queued_of(k) == old(self).queued_of(k)
                && self.pending_of(k) == old(self).pending_of(k) by {
                if batch_has(batch@, k) {
                    let t = choose|t: int|
                        0 <= t < batch@.len() && (#[trigger] batch@[t]).0.event_key == k;
                    assert(old(self).queued_of(k) == Some(batch@[t].0.priority));
                } else {
                    assert(bus_lookup(self.events_bus@, k) == old(self).queued_of(k));
                    assert(alookup_view(self.events@, k) == old(self).pending_of(k));
                }
            }
            assert forall|k: u64|
                !old(self).queued_at_rank(k, old(self).min_rank()) implies #[trigger] self.pending_of(k) == old(self).pending_of(k) by {
                assert(self.queued_of(k) == old(self).queued_of(k));
            }
            assert forall|t: int|
                0 <= t < batch@.len() implies (#[trigger] batch@[t]).0.priority.rank() == old(self).min_rank()
                && self.queued_of(batch@[t].0.event_key) is None
                && self.pending_of(batch@[t].0.event_key) is None by {
                assert(bus_lookup(self.events_bus@, batch@[t].0.event_key) is None);
                assert(alookup(self.events@, batch@[t].0.event_key) is None);
            }
        }
        Some(batch)
    }

    /// Emit an event at the priority a type-state marker names, fixed at
    /// the call site at compile time.
    pub fn emit_type_state<P: PriorityState>(&mut self, event_key: u64, event: E) -> (r: Option<
        u64,
    >)
        requires
            old(self).wf(),
        ensures
            final(self).wf(),
            r == Some(event_key),
            final(self).pending_of(event_key) == Some(
                match old(self).pending_of(event_key) {
                    Some(batch) => batch.push(event),
                    None => seq![event],
                },
            ),
            final(self).queued_of(event_key) == Some(
                old(self).upgraded(event_key, P::spec_priority()),
            ),
            forall|k: u64|
                k != event_key ==> #[trigger] final(self).pending_of(k) == old(self).pending_of(
                    k,
                ),
            forall|k: u64|
                k != event_key ==> #[trigger] final(self).queued_of(k) == old(self).queued_of(k),
    {
        self.emit_priority(event_key, event, P::priority())
    }
}

} // verus!
