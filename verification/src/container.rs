//! The resource store: a mapping from type key to an individually lockable
//! resource, itself protected by a structural lock.
//!
//! Every resource lives behind its own [`GrainedLock`], and the mapping as a
//! whole is guarded by a structural reader/writer lock: inserting or removing
//! an entry needs the structural lock exclusively, while locating a resource
//! takes it shared.  A handle over a located resource retains that shared
//! structural hold for its whole lifetime, so no concurrent removal can
//! destroy a resource while it is being read or written — at the price that
//! structural changes wait until every handle is given back.
//!
//! In this model the lock states are explicit counters, a blocking
//! acquisition is a precondition saying the lock is available, and the
//! well-formedness invariant ties the structural hold count to the per-entry
//! holds: every outstanding per-resource hold retains exactly one structural
//! read hold.

use vstd::prelude::*;

use crate::grained_lock::GrainedLock;
use crate::grained_ref::{LockState, Mutable, Ref};
use crate::query::{Access, Retrieved};

verus! {

struct Entry<V> {
    key: u64,
    cell: GrainedLock<V>,
}

/// Sum of all outstanding per-entry holds, of either kind.
spec fn total_holds<V>(s: Seq<Entry<V>>) -> int
    decreases s.len(),
{
    if s.len() == 0 {
        0
    } else {
        total_holds(s.drop_last()) + s.last().cell.holds()
    }
}

spec fn keys_unique<V>(s: Seq<Entry<V>>) -> bool {
    forall|i: int, j: int| 0 <= i < j < s.len() ==> s[i].key != s[j].key
}

spec fn cells_wf<V>(s: Seq<Entry<V>>) -> bool {
    forall|i: int| 0 <= i < s.len() ==> (#[trigger] s[i]).cell.wf()
}

spec fn has_key<V>(s: Seq<Entry<V>>, key: u64) -> bool {
    exists|i: int| 0 <= i < s.len() && (#[trigger] s[i]).key == key
}

spec fn idx_of<V>(s: Seq<Entry<V>>, key: u64) -> int {
    choose|i: int| 0 <= i < s.len() && (#[trigger] s[i]).key == key
}

proof fn lemma_idx_of<V>(s: Seq<Entry<V>>, i: int, key: u64)
    requires
        keys_unique(s),
        0 <= i < s.len(),
        s[i].key == key,
    ensures
        idx_of(s, key) == i,
        has_key(s, key),
{
    assert(has_key(s, key));
    let j = idx_of(s, key);
    if i != j {
        assert(s[i].key == s[j].key);
        assert(false);
    }
}

proof fn lemma_total_holds_nonneg<V>(s: Seq<Entry<V>>)
    ensures
        total_holds(s) >= 0,
    decreases s.len(),
{
    if s.len() > 0 {
        lemma_total_holds_nonneg(s.drop_last());
    }
}

proof fn lemma_holds_le_total<V>(s: Seq<Entry<V>>, i: int)
    requires
        0 <= i < s.len(),
    ensures
        s[i].cell.holds() <= total_holds(s),
    decreases s.len(),
{
    if i == s.len() - 1 {
        lemma_total_holds_nonneg(s.drop_last());
    } else {
        lemma_holds_le_total(s.drop_last(), i);
        assert(s.drop_last()[i] == s[i]);
    }
}

proof fn lemma_total_holds_push<V>(s: Seq<Entry<V>>, e: Entry<V>)
    ensures
        total_holds(s.push(e)) == total_holds(s) + e.cell.holds(),
{
    assert(s.push(e).drop_last() =~= s);
    assert(s.push(e).last() == e);
}

proof fn lemma_total_holds_update<V>(s: Seq<Entry<V>>, i: int, e: Entry<V>)
    requires
        0 <= i < s.len(),
    ensures
        total_holds(s.update(i, e)) == total_holds(s) - s[i].cell.holds() + e.cell.holds(),
    decreases s.len(),
{
    let t = s.update(i, e);
    if i == s.len() - 1 {
        assert(t.drop_last() =~= s.drop_last());
        assert(t.last() == e);
    } else {
        assert(t.drop_last() =~= s.drop_last().update(i, e));
        assert(t.last() == s.last());
        lemma_total_holds_update(s.drop_last(), i, e);
        assert(s.drop_last()[i] == s[i]);
    }
}

proof fn lemma_total_holds_remove<V>(s: Seq<Entry<V>>, i: int)
    requires
        0 <= i < s.len(),
    ensures
        total_holds(s.remove(i)) == total_holds(s) - s[i].cell.holds(),
    decreases s.len(),
{
    let t = s.remove(i);
    if i == s.len() - 1 {
        assert(t =~= s.drop_last());
    } else {
        assert(t.drop_last() =~= s.drop_last().remove(i));
        assert(t.last() == s.last());
        lemma_total_holds_remove(s.drop_last(), i);
        assert(s.drop_last()[i] == s[i]);
    }
}

proof fn lemma_same_keys<V>(s0: Seq<Entry<V>>, s1: Seq<Entry<V>>)
    requires
        keys_unique(s0),
        s1.len() == s0.len(),
        forall|j: int| 0 <= j < s0.len() ==> (#[trigger] s1[j]).key == s0[j].key,
    ensures
        keys_unique(s1),
        forall|k: u64| has_key(s1, k) == has_key(s0, k),
        forall|k: u64| #[trigger] has_key(s0, k) ==> idx_of(s1, k) == idx_of(s0, k),
{
    assert forall|k: u64| has_key(s1, k) == has_key(s0, k) by {
        if has_key(s1, k) {
            let j = idx_of(s1, k);
            assert(s0[j].key == k);
        }
        if has_key(s0, k) {
            let j = idx_of(s0, k);
            assert(s1[j].key == k);
        }
    }
    assert forall|k: u64| #[trigger] has_key(s0, k) implies idx_of(s1, k) == idx_of(s0, k) by {
        let j = idx_of(s0, k);
        assert(s1[j].key == k);
        lemma_idx_of(s1, j, k);
    }
}

/// The lifecycle interface of a resource store: insert, remove and test
/// resources by type key.  Structural changes need the structural lock
/// exclusively, so they are only available while no handle is outstanding
/// — the store is `settled`.
pub trait ResourceContainer<V>: Sized {
    /// The stored resources, as a map from type key to value.
    spec fn resources(self) -> Map<u64, V>;

    /// The store is consistent and no handle is outstanding, so the
    /// structural lock is free for an exclusive acquisition.
    spec fn settled(self) -> bool;

    /// Store `value` under `key`, overwriting (and dropping) any previous
    /// resource stored there.
    fn add_resource(&mut self, key: u64, value: V)
        requires
            old(self).settled(),
        ensures
            final(self).settled(),
            final(self).resources() == old(self).resources().insert(key, value),
    ;

    /// Remove and return the resource stored under `key`, if any.
    fn remove_resource(&mut self, key: u64) -> (r: Option<V>)
        requires
            old(self).settled(),
        ensures
            final(self).settled(),
            final(self).resources() == old(self).resources().remove(key),
            r == if old(self).resources().dom().contains(key) {
                Some(old(self).resources()[key])
            } else {
                None::<V>
            },
    ;

    /// Whether a resource is stored under `key`.
    fn contains_resource(&self, key: u64) -> (r: bool)
        ensures
            r == self.resources().dom().contains(key),
    ;
}

/// The type-erased resource store.
///
/// Maps each type key to a per-resource lock around the stored value.  The
/// abstract content is the map [`Container::view`] (written `self@`); the
/// lock state is visible through [`Container::readers_of`],
/// [`Container::writer_of`] and [`Container::structural_readers`].
pub struct Container<V> {
    structural_readers: u64,
    entries: Vec<Entry<V>>,
}

impl<V> View for Container<V> {
    type V = Map<u64, V>;

    /// The stored resources, as a map from type key to value.
    closed spec fn view(&self) -> Map<u64, V> {
        Map::new(
            |k: u64| has_key(self.entries@, k),
            |k: u64| self.entries@[idx_of(self.entries@, k)].cell.payload(),
        )
    }
}

impl<V> Container<V> {
    /// Whether a resource is stored under `key`.
    pub open spec fn contains_key(self, key: u64) -> bool {
        self@.dom().contains(key)
    }

    /// Outstanding shared holds on the resource stored under `key`
    /// (0 when no such resource exists).
    pub closed spec fn readers_of(self, key: u64) -> u64 {
        if has_key(self.entries@, key) {
            self.entries@[idx_of(self.entries@, key)].cell.readers()
        } else {
            0
        }
    }

    /// Whether the resource stored under `key` is exclusively held
    /// (false when no such resource exists).
    pub closed spec fn writer_of(self, key: u64) -> bool {
        if has_key(self.entries@, key) {
            self.entries@[idx_of(self.entries@, key)].cell.writer()
        } else {
            false
        }
    }

    /// Outstanding shared holds on the structural lock.  Each resource
    /// handle retains exactly one of them.
    pub closed spec fn structural_readers(self) -> u64 {
        self.structural_readers
    }

    /// Well-formedness: type keys are unique, every per-resource lock obeys
    /// its exclusion invariant, and the structural hold count equals the sum
    /// of all per-resource holds.
    pub closed spec fn wf(self) -> bool {
        &&& keys_unique(self.entries@)
        &&& cells_wf(self.entries@)
        &&& self.structural_readers as int == total_holds(self.entries@)
    }

    /// No handle is outstanding, so the structural lock is free and a
    /// structural change (insert or remove) could take it exclusively.
    pub open spec fn quiescent(self) -> bool {
        self.structural_readers() == 0
    }

    /// A blocking acquisition of `key` in mode `access` would succeed at
    /// once: no conflicting holder stands in the way.  Trivially true when
    /// the key is absent, since nothing is locked then.
    pub open spec fn available(self, key: u64, access: Access) -> bool {
        self.contains_key(key) ==> match access {
            Access::Immutable => !self.writer_of(key),
            Access::Mutable => !self.writer_of(key) && self.readers_of(key) == 0,
        }
    }

    /// A handle over `key` in mode `access` is outstanding.
    pub open spec fn holds_at(self, key: u64, access: Access) -> bool {
        self.contains_key(key) && match access {
            Access::Immutable => self.readers_of(key) > 0,
            Access::Mutable => self.writer_of(key),
        }
    }

    /// In a well-formed store an exclusive hold excludes every shared hold,
    /// every hold retains a structural read, and no per-resource hold count
    /// exceeds the structural one.
    pub proof fn lemma_wf_facts(self, key: u64)
        requires
            self.wf(),
        ensures
            self.writer_of(key) ==> self.readers_of(key) == 0,
            self.readers_of(key) as int + if self.writer_of(key) {
                1int
            } else {
                0int
            } <= self.structural_readers() as int,
            self.quiescent() ==> self.readers_of(key) == 0 && !self.writer_of(key),
    {
        if has_key(self.entries@, key) {
            let i = idx_of(self.entries@, key);
            assert(self.entries@[i].cell.wf());
            lemma_holds_le_total(self.entries@, i);
        }
    }

    /// A fresh, empty store with no holds outstanding.
    pub fn new() -> (c: Self)
        ensures
            c.wf(),
            c.quiescent(),
            c@ == Map::<u64, V>::empty(),
            forall|k: u64| !(#[trigger] c.contains_key(k)),
    {
        let c = Container { structural_readers: 0, entries: Vec::new() };
        proof {
            assert(c@ =~= Map::<u64, V>::empty());
        }
        c
    }

    fn find_index(&self, key: u64) -> (r: Option<usize>)
        ensures
            match r {
                Some(i) => i < self.entries@.len() && self.entries@[i as int].key == key,
                None => !has_key(self.entries@, key),
            },
    {
        let mut i: usize = 0;
        while i < self.entries.len()
            invariant
                i <= self.entries@.len(),
                forall|j: int| 0 <= j < i ==> (#[trigger] self.entries@[j]).key != key,
            decreases self.entries@.len() - i,
        {
            if self.entries[i].key == key {
                return Some(i);
            }
            i = i + 1;
        }
        None
    }

    /// Look the resource up under the structural lock taken shared and, if it
    /// is present, acquire its own lock in the requested mode and hand back a
    /// handle that retains the structural hold underneath.  When the key is
    /// absent, nothing is locked and a not-found marker is returned.
    ///
    /// In a concurrent setting the per-resource acquisition blocks until the
    /// mode is available; here availability is the precondition.
    pub fn get(&mut self, key: u64, access: Access) -> (r: Retrieved)
        requires
            old(self).wf(),
            old(self).structural_readers() < u64::MAX,
            old(self).available(key, access),
        ensures
            final(self).wf(),
            final(self)@ == old(self)@,
            r is NotFound <==> !old(self).contains_key(key),
            !old(self).contains_key(key) ==> *final(self) == *old(self),
            old(self).contains_key(key) ==> final(self).structural_readers() == old(self).structural_readers() + 1,
            old(self).contains_key(key) && access == Access::Immutable ==> (r matches
                Retrieved::Immutable(h) && h.key() == key) && final(self).readers_of(key) == old(self).readers_of(key) + 1 && !final(self).writer_of(key),
            old(self).contains_key(key) && access == Access::Mutable ==> (r matches
                Retrieved::Mutable(h) && h.key() == key) && final(self).writer_of(key) && final(self).readers_of(key) == 0,
            forall|k: u64|
                k != key ==> final(self).readers_of(k) == old(self).readers_of(k) && final(self).writer_of(k) == old(self).writer_of(k),
    {
        let ghost s0 = self.entries@;
        match self.find_index(key) {
            None => Retrieved::NotFound,
            Some(i) => {
                proof {
                    lemma_idx_of(s0, i as int, key);
                    lemma_holds_le_total(s0, i as int);
                }
                self.structural_readers = self.structural_readers + 1;
                let r = match access {
                    Access::Immutable => {
                        self.entries[i].cell.acquire_shared();
                        Retrieved::Immutable(Ref::new(key))
                    },
                    Access::Mutable => {
                        self.entries[i].cell.acquire_exclusive();
                        Retrieved::Mutable(Ref::new(key))
                    },
                };
                proof {
                    let s1 = self.entries@;
                    lemma_same_keys(s0, s1);
                    lemma_total_holds_update(s0, i as int, s1[i as int]);
                    assert(s1 =~= s0.update(i as int, s1[i as int]));
                    lemma_idx_of(s1, i as int, key);
                    assert forall|k: u64| #[trigger]
                        has_key(s0, k) implies s1[idx_of(s1, k)].cell.payload() == s0[idx_of(
                        s0,
                        k,
                    )].cell.payload() by {
                        lemma_idx_of(s1, idx_of(s0, k), k);
                    }
                    assert(self@ =~= old(self)@);
                }
                r
            },
        }
    }

    /// Read the resource a handle holds, shared or exclusive.
    pub fn read<'a, S: LockState>(&'a self, handle: &Ref<S>) -> (v: &'a V)
        requires
            self.wf(),
            self.holds_at(handle.key(), S::access()),
        ensures
            *v == self@[handle.key()],
    {
        let key = handle.entry_key();
        match self.find_index(key) {
            Some(i) => {
                proof {
                    lemma_idx_of(self.entries@, i as int, key);
                }
                self.entries[i].cell.read()
            },
            None => vstd::pervasive::unreached(),
        }
    }

    /// Replace the resource an exclusive handle holds.  Only the content of
    /// that one resource changes; no lock state moves.
    pub fn write(&mut self, handle: &Ref<Mutable>, value: V)
        requires
            old(self).wf(),
            old(self).holds_at(handle.key(), Access::Mutable),
        ensures
            final(self).wf(),
            final(self)@ == old(self)@.insert(handle.key(), value),
            final(self).structural_readers() == old(self).structural_readers(),
            forall|k: u64|
                final(self).readers_of(k) == old(self).readers_of(k) && final(self).writer_of(k)
                    == old(self).writer_of(k),
    {
        let ghost s0 = self.entries@;
        let key = handle.entry_key();
        match self.find_index(key) {
            Some(i) => {
                proof {
                    lemma_idx_of(s0, i as int, key);
                }
                self.entries[i].cell.write(value);
                proof {
                    let s1 = self.entries@;
                    lemma_same_keys(s0, s1);
                    lemma_total_holds_update(s0, i as int, s1[i as int]);
                    assert(s1 =~= s0.update(i as int, s1[i as int]));
                    lemma_idx_of(s1, i as int, key);
                    assert forall|k: u64| #[trigger]
                        has_key(s0, k) && k != key implies s1[idx_of(s1, k)].cell.payload()
                        == s0[idx_of(s0, k)].cell.payload() by {
                        lemma_idx_of(s1, idx_of(s0, k), k);
                    }
                    assert(self@ =~= old(self)@.insert(key, value));
                }
            },
            None => vstd::pervasive::unreached(),
        }
    }

    /// Give a handle back: release the per-resource hold it stands for, then
    /// the structural read hold retained underneath it — the reverse of the
    /// acquisition order.  Consuming the handle guarantees each hold is
    /// released exactly once.
    pub fn release<S: LockState>(&mut self, handle: Ref<S>)
        requires
            old(self).wf(),
            old(self).holds_at(handle.key(), S::access()),
        ensures
            final(self).wf(),
            final(self)@ == old(self)@,
            final(self).structural_readers() == old(self).structural_readers() - 1,
            S::access() == Access::Immutable ==> final(self).readers_of(handle.key()) == old(self).readers_of(handle.key()) - 1 && final(self).writer_of(handle.key()) == old(self).writer_of(handle.key()),
            S::access() == Access::Mutable ==> !final(self).writer_of(handle.key()) && final(self).readers_of(handle.key()) == 0,
            forall|k: u64|
                k != handle.key() ==> final(self).readers_of(k) == old(self).readers_of(k)
                    && final(self).writer_of(k) == old(self).writer_of(k),
    {
        let ghost s0 = self.entries@;
        let key = handle.entry_key();
        match self.find_index(key) {
            Some(i) => {
                proof {
                    lemma_idx_of(s0, i as int, key);
                    lemma_holds_le_total(s0, i as int);
                    assert(self.entries@[i as int].cell.wf());
                }
                match S::access_mode() {
                    Access::Immutable => self.entries[i].cell.release_shared(),
                    Access::Mutable => self.entries[i].cell.release_exclusive(),
                }
                self.structural_readers = self.structural_readers - 1;
                proof {
                    let s1 = self.entries@;
                    lemma_same_keys(s0, s1);
                    lemma_total_holds_update(s0, i as int, s1[i as int]);
                    assert(s1 =~= s0.update(i as int, s1[i as int]));
                    lemma_idx_of(s1, i as int, key);
                    assert forall|k: u64| #[trigger]
                        has_key(s0, k) implies s1[idx_of(s1, k)].cell.payload() == s0[idx_of(
                        s0,
                        k,
                    )].cell.payload() by {
                        lemma_idx_of(s1, idx_of(s0, k), k);
                    }
                    assert(self@ =~= old(self)@);
                }
            },
            None => vstd::pervasive::unreached(),
        }
    }
}

impl<V> Container<V> {
    /// Give back whatever a retrieval came back with: a found handle is
    /// released in its mode; a not-found marker holds nothing and releases
    /// nothing.
    pub fn release_retrieved(&mut self, r: Retrieved)
        requires
            old(self).wf(),
            r matches Retrieved::Immutable(h) ==> old(self).holds_at(h.key(), Access::Immutable),
            r matches Retrieved::Mutable(h) ==> old(self).holds_at(h.key(), Access::Mutable),
        ensures
            final(self).wf(),
            final(self)@ == old(self)@,
            r is NotFound ==> *final(self) == *old(self),
            !(r is NotFound) ==> final(self).structural_readers() == old(self).structural_readers() - 1,
            r matches Retrieved::Immutable(h) ==> final(self).readers_of(h.key()) == old(self).readers_of(h.key()) - 1 && final(self).writer_of(h.key()) == old(self).writer_of(
                h.key(),
            ),
            r matches Retrieved::Mutable(h) ==> !final(self).writer_of(h.key()) && final(self).readers_of(h.key()) == 0,
            forall|k: u64|
                k != r.spec_key() ==> final(self).readers_of(k) == old(self).readers_of(k)
                    && final(self).writer_of(k) == old(self).writer_of(k),
    {
        match r {
            Retrieved::Immutable(h) => self.release(h),
            Retrieved::Mutable(h) => self.release(h),
            Retrieved::NotFound => (),
        }
    }
}

/// Type isolation: storing a resource under key `a` and one under key `b`,
/// then removing `a`, leaves `b` retrievable with its stored value and `a`
/// absent — for every pair of distinct keys and every pair of values.
/// Stated over the map view that `add_resource` and `remove_resource`
/// establish in their contracts.
pub proof fn lemma_type_isolation<V>(m: Map<u64, V>, a: u64, b: u64, va: V, vb: V)
    requires
        a != b,
    ensures
        m.insert(a, va).insert(b, vb).remove(a).dom().contains(b),
        m.insert(a, va).insert(b, vb).remove(a)[b] == vb,
        !m.insert(a, va).insert(b, vb).remove(a).dom().contains(a),
{
}

/// Read/write exclusivity, one half: while an exclusive holder exists, no
/// further acquisition of that resource — shared or exclusive — is
/// available; every other caller waits until the exclusive holder is done.
pub proof fn lemma_exclusive_excludes_all<V>(c: Container<V>, key: u64)
    requires
        c.wf(),
        c.holds_at(key, Access::Mutable),
    ensures
        !c.available(key, Access::Immutable),
        !c.available(key, Access::Mutable),
{
}

/// Read/write exclusivity, the other half: shared holders coexist — while
/// shared holds on a resource are outstanding, a further shared acquisition
/// is still available, but an exclusive one is not.
pub proof fn lemma_shared_coexist_exclude_writer<V>(c: Container<V>, key: u64)
    requires
        c.wf(),
        c.holds_at(key, Access::Immutable),
    ensures
        c.available(key, Access::Immutable),
        !c.available(key, Access::Mutable),
{
    c.lemma_wf_facts(key);
}

/// Holding any resource handle retains a shared hold on the structural
/// lock, so a structural change — an insert or a remove, which both need
/// the structural lock exclusively — waits until the handle is given back.
/// In particular a remove of the very resource a shared view holds blocks.
pub proof fn lemma_hold_blocks_structure<V>(c: Container<V>, key: u64, access: Access)
    requires
        c.wf(),
        c.holds_at(key, access),
    ensures
        !c.quiescent(),
{
    c.lemma_wf_facts(key);
}

/// Structural/content independence: an acquisition or hold on one resource
/// moves only that resource's lock and the structural count; the content
/// and the availability of every other resource are untouched.  Stated over
/// any two store states that `get`'s contract relates.
pub proof fn lemma_content_independence<V>(
    c0: Container<V>,
    c1: Container<V>,
    a: u64,
    b: u64,
    access: Access,
)
    requires
        a != b,
        c1@ == c0@,
        c1.readers_of(b) == c0.readers_of(b),
        c1.writer_of(b) == c0.writer_of(b),
    ensures
        c1.available(b, access) == c0.available(b, access),
        c1.contains_key(b) == c0.contains_key(b),
{
}

impl<V> ResourceContainer<V> for Container<V> {
    open spec fn resources(self) -> Map<u64, V> {
        self@
    }

    open spec fn settled(self) -> bool {
        self.wf() && self.quiescent()
    }

    fn add_resource(&mut self, key: u64, value: V) {
        let ghost s0 = self.entries@;
        match self.find_index(key) {
            Some(i) => {
                proof {
                    lemma_holds_le_total(s0, i as int);
                }
                let e = Entry { key, cell: GrainedLock::new(value) };
                proof {
                    lemma_total_holds_update(s0, i as int, e);
                }
                self.entries[i] = e;
                proof {
                    lemma_idx_of(s0, i as int, key);
                    lemma_idx_of(self.entries@, i as int, key);
                    assert forall|k: u64| has_key(self.entries@, k) <==> has_key(s0, k)
                        || k == key by {
                        if has_key(self.entries@, k) {
                            let j = idx_of(self.entries@, k);
                            if j != i {
                                assert(s0[j].key == k);
                            }
                        }
                        if has_key(s0, k) {
                            let j = idx_of(s0, k);
                            if j != i {
                                assert(self.entries@[j].key == k);
                            }
                        }
                    }
                    assert forall|k: u64| #[trigger]
                        has_key(self.entries@, k) && k != key implies self.entries@[idx_of(
                        self.entries@,
                        k,
                    )].cell.payload() == s0[idx_of(s0, k)].cell.payload() by {
                        let j = idx_of(self.entries@, k);
                        assert(s0[j].key == k);
                        lemma_idx_of(s0, j, k);
                    }
                    assert(self@ =~= old(self)@.insert(key, value));
                }
            },
            None => {
                let e = Entry { key, cell: GrainedLock::new(value) };
                proof {
                    lemma_total_holds_push(s0, e);
                }
                self.entries.push(e);
                proof {
                    let s1 = self.entries@;
                    lemma_idx_of(s1, s1.len() - 1, key);
                    assert forall|k: u64| #[trigger]
                        has_key(s1, k) && k != key implies has_key(s0, k) && s1[idx_of(
                        s1,
                        k,
                    )].cell.payload() == s0[idx_of(s0, k)].cell.payload() by {
                        let j = idx_of(s1, k);
                        assert(j < s1.len() - 1);
                        assert(s0[j].key == k);
                        lemma_idx_of(s0, j, k);
                    }
                    assert forall|k: u64| has_key(s0, k) implies has_key(s1, k) by {
                        let j = idx_of(s0, k);
                        assert(s1[j].key == k);
                    }
                    assert(self@ =~= old(self)@.insert(key, value));
                }
            },
        }
    }

    fn remove_resource(&mut self, key: u64) -> (r: Option<V>) {
        let ghost s0 = self.entries@;
        match self.find_index(key) {
            Some(i) => {
                proof {
                    lemma_idx_of(s0, i as int, key);
                    lemma_holds_le_total(s0, i as int);
                    lemma_total_holds_remove(s0, i as int);
                }
                let e = self.entries.remove(i);
                proof {
                    let s1 = self.entries@;
                    assert forall|k: u64| #[trigger] has_key(s1, k) implies has_key(s0, k)
                        && k != key by {
                        let j = idx_of(s1, k);
                        if j < i {
                            assert(s0[j].key == k);
                        } else {
                            assert(s0[j + 1].key == k);
                        }
                    }
                    assert forall|k: u64| #[trigger]
                        has_key(s0, k) && k != key implies has_key(s1, k) && s1[idx_of(
                        s1,
                        k,
                    )].cell.payload() == s0[idx_of(s0, k)].cell.payload() by {
                        let j = idx_of(s0, k);
                        if j < i {
                            assert(s1[j].key == k);
                            lemma_idx_of(s1, j, k);
                            lemma_idx_of(s0, j, k);
                        } else {
                            assert(j > i);
                            assert(s1[j - 1].key == k);
                            lemma_idx_of(s1, j - 1, k);
                            lemma_idx_of(s0, j, k);
                        }
                    }
                    assert(self@ =~= old(self)@.remove(key));
                }
                Some(e.cell.take())
            },
            None => {
                proof {
                    assert(self@ =~= old(self)@.remove(key));
                }
                None
            },
        }
    }

    fn contains_resource(&self, key: u64) -> (r: bool) {
        self.find_index(key).is_some()
    }

}

impl<V: Default> Default for Container<V> {
    /// A fresh, empty store.
    fn default() -> (c: Self)
        ensures
            c.wf(),
            c.quiescent(),
            c@ == Map::<u64, V>::empty(),
    {
        Container::new()
    }
}

} // verus!
