//! Access modes, retrieval results and the deadlock-free retrieval protocol.
//!
//! A multi-resource request names several (type key, access mode) pairs.  The
//! protocol first rejects malformed requests (the same key named twice), then
//! acquires the resources in ascending key order — one canonical total order
//! shared by every call site in the process — and finally hands the handles
//! back in the order the caller named them.  Because every caller acquires
//! overlapping key sets in the same relative order, no cycle of waiting can
//! form between two concurrent requests, whatever order each declared.

use vstd::prelude::*;

use crate::container::{Container, ResourceContainer};
use crate::grained_ref::{Immutable, Mutable, Ref};

verus! {

/// The access mode a retrieval asks for: shared read or exclusive write.
#[derive(Clone, Copy, Debug, PartialEq, Eq, Structural)]
pub enum Access {
    Immutable,
    Mutable,
}

impl From<Immutable> for Access {
    fn from(_tag: Immutable) -> (a: Self)
        ensures
            a == Access::Immutable,
    {
        Access::Immutable
    }
}

impl vstd::std_specs::convert::FromSpecImpl<Immutable> for Access {
    open spec fn obeys_from_spec() -> bool {
        true
    }

    open spec fn from_spec(_tag: Immutable) -> Access {
        Access::Immutable
    }
}

impl From<Mutable> for Access {
    fn from(_tag: Mutable) -> (a: Self)
        ensures
            a == Access::Mutable,
    {
        Access::Mutable
    }
}

impl vstd::std_specs::convert::FromSpecImpl<Mutable> for Access {
    open spec fn obeys_from_spec() -> bool {
        true
    }

    open spec fn from_spec(_tag: Mutable) -> Access {
        Access::Mutable
    }
}

/// What a lookup in the store came back with: a handle in the requested
/// mode, or a marker that nothing is stored under the requested key — a
/// normal return value of this layer, not a fault.
#[derive(Debug)]
pub enum Retrieved {
    Immutable(Ref<Immutable>),
    Mutable(Ref<Mutable>),
    NotFound,
}

impl Retrieved {
    /// The key a found handle holds; meaningful only when one was found.
    pub open spec fn spec_key(self) -> u64 {
        match self {
            Retrieved::Immutable(h) => h.key(),
            Retrieved::Mutable(h) => h.key(),
            Retrieved::NotFound => 0,
        }
    }

    /// Whether a resource was found, in either mode.
    pub fn is_found(&self) -> (r: bool)
        ensures
            r == !(self is NotFound),
    {
        match self {
            Retrieved::Immutable(_) => true,
            Retrieved::Mutable(_) => true,
            Retrieved::NotFound => false,
        }
    }

    /// Whether a resource was found with shared, read-only access.
    pub fn is_immutable(&self) -> (r: bool)
        ensures
            r == (self is Immutable),
    {
        match self {
            Retrieved::Immutable(_) => true,
            _ => false,
        }
    }

    /// Whether a resource was found with exclusive, read-write access.
    pub fn is_mutable(&self) -> (r: bool)
        ensures
            r == (self is Mutable),
    {
        match self {
            Retrieved::Mutable(_) => true,
            _ => false,
        }
    }
}

/// One element of a multi-resource request: which resource, in which access
/// mode, and whether the request as a whole must fail when the resource is
/// absent (`required`) or tolerates the absence (an optional view).
#[derive(Clone, Copy, Debug, PartialEq, Eq, Structural)]
pub struct Request {
    pub key: u64,
    pub access: Access,
    pub required: bool,
}

/// Why a retrieval failed: the request was malformed, or a resource that a
/// required view asked for was never inserted.
#[derive(Clone, Copy, Debug, PartialEq, Eq, Structural)]
pub enum RetrieveError {
    /// The same type key was named twice in one request — a caller error,
    /// detected before any lock is acquired.
    Conflict,
    /// A required resource is not in the store; nothing was retrieved.
    NotFound,
}

/// A malformed request: the same type key named twice.  Acquiring it twice
/// would self-deadlock, so such requests are rejected before any lock is
/// touched.
pub open spec fn conflicts(s: Seq<Request>) -> bool {
    exists|i: int, j: int| 0 <= i < j < s.len() && s[i].key == s[j].key
}

/// The acquisition order: ascending by type key.
pub open spec fn sorted_by_key(s: Seq<(Request, usize)>) -> bool {
    forall|i: int, j: int| 0 <= i < j < s.len() ==> s[i].0.key <= s[j].0.key
}

/// What one request element must have come back with: when the resource was
/// present, a handle over its key in the requested mode; when absent, the
/// not-found marker.
pub open spec fn outcome_ok(req: Request, r: Retrieved, present: bool) -> bool {
    if present {
        match req.access {
            Access::Immutable => r matches Retrieved::Immutable(h) && h.key() == req.key,
            Access::Mutable => r matches Retrieved::Mutable(h) && h.key() == req.key,
        }
    } else {
        r is NotFound
    }
}

/// How many elements actually hold a resource handle.
pub open spec fn found_count(s: Seq<Retrieved>) -> int
    decreases s.len(),
{
    if s.len() == 0 {
        0
    } else {
        found_count(s.drop_last()) + if s.last() is NotFound {
            0int
        } else {
            1int
        }
    }
}

proof fn lemma_found_count_zero(s: Seq<Retrieved>)
    requires
        forall|i: int| 0 <= i < s.len() ==> (#[trigger] s[i]) is NotFound,
    ensures
        found_count(s) == 0,
    decreases s.len(),
{
    if s.len() > 0 {
        lemma_found_count_zero(s.drop_last());
    }
}

proof fn lemma_found_count_update(s: Seq<Retrieved>, i: int, r: Retrieved)
    requires
        0 <= i < s.len(),
    ensures
        found_count(s.update(i, r)) == found_count(s) - if s[i] is NotFound {
            0int
        } else {
            1int
        } + if r is NotFound {
            0int
        } else {
            1int
        },
    decreases s.len(),
{
    let t = s.update(i, r);
    if i == s.len() - 1 {
        assert(t.drop_last() =~= s.drop_last());
        assert(t.last() == r);
    } else {
        assert(t.drop_last() =~= s.drop_last().update(i, r));
        assert(t.last() == s.last());
        lemma_found_count_update(s.drop_last(), i, r);
        assert(s.drop_last()[i] == s[i]);
    }
}

/// Whether two requests named twice with the same key exist.  Detected at
/// the earliest possible point, before any lock acquisition.
pub fn request_conflicts(request: &Vec<Request>) -> (r: bool)
    ensures
        r == conflicts(request@),
{
    let n = request.len();
    let mut i: usize = 0;
    while i < n
        invariant
            n == request@.len(),
            i <= n,
            forall|a: int, b: int| 0 <= a < b < n && a < i ==> request@[a].key != request@[b].key,
        decreases n - i,
    {
        let mut j: usize = i + 1;
        while j < n
            invariant
                n == request@.len(),
                i < n,
                i < j <= n,
                forall|b: int| i < b < j ==> request@[i as int].key != (#[trigger] request@[b]).key,
            decreases n - j,
        {
            if request[i].key == request[j].key {
                return true;
            }
            j = j + 1;
        }
        i = i + 1;
    }
    false
}

/// Some element of the plan carries declared position `i`.
pub open spec fn covered(p: Seq<(Request, usize)>, i: int) -> bool {
    exists|m: int| 0 <= m < p.len() && (#[trigger] p[m]).1 == i
}

/// Step 1 and 2 of the retrieval protocol: tag each request element with its
/// declared position, then sort by type key — the canonical acquisition
/// order every caller shares.  The result is a permutation of the tagged
/// request: sorted, with every declared position occurring exactly once.
pub fn plan(request: &Vec<Request>) -> (p: Vec<(Request, usize)>)
    requires
        !conflicts(request@),
    ensures
        p@.len() == request@.len(),
        sorted_by_key(p@),
        forall|m: int| 0 <= m < p@.len() ==> (#[trigger] p@[m]).1 < request@.len()
            && request@[p@[m].1 as int] == p@[m].0,
        forall|m1: int, m2: int| 0 <= m1 < m2 < p@.len() ==> p@[m1].1 != p@[m2].1,
        forall|i: int| 0 <= i < request@.len() ==> covered(p@, i),
    {
    let n = request.len();
    let mut p: Vec<(Request, usize)> = Vec::new();
    let mut i: usize = 0;
    while i < n
        invariant
            n == request@.len(),
            i <= n,
            p@.len() == i,
            sorted_by_key(p@),
            forall|m: int| 0 <= m < p@.len() ==> (#[trigger] p@[m]).1 < i && request@[p@[m].1 as int]
                == p@[m].0,
            forall|m1: int, m2: int| 0 <= m1 < m2 < p@.len() ==> p@[m1].1 != p@[m2].1,
            forall|q: int| 0 <= q < i ==> covered(p@, q),
        decreases n - i,
    {
        let item = (request[i], i);
        let ghost p0 = p@;
        let mut j: usize = p.len();
        while j > 0 && p[j - 1].0.key > item.0.key
            invariant
                j <= p@.len(),
                p@ == p0,
                forall|m: int| j <= m < p@.len() ==> (#[trigger] p@[m]).0.key > item.0.key,
            decreases j,
    {
            j = j - 1;
        }
        proof {
            assert(forall|m: int| 0 <= m < j ==> (#[trigger] p0[m]).0.key <= item.0.key);
        }
        p.insert(j, item);
        proof {
            let p1 = p@;
            assert(forall|m: int| 0 <= m < j ==> p1[m] == p0[m]);
            assert(p1[j as int] == item);
            assert(forall|m: int| j < m < p1.len() ==> p1[m] == p0[m - 1]);
            assert forall|q: int| 0 <= q < i + 1 implies covered(p1, q) by {
                if q == i {
                    assert(p1[j as int].1 == q);
                } else {
                    assert(covered(p0, q));
                    let m0 = choose|m: int| 0 <= m < p0.len() && (#[trigger] p0[m]).1 == q;
                    if m0 < j {
                        assert(p1[m0].1 == q);
                    } else {
                        assert(p1[m0 + 1].1 == q);
                    }
                }
            }
        }
        i = i + 1;
    }
    p
}

proof fn lemma_plan_keys_distinct(
    request: Seq<Request>,
    p: Seq<(Request, usize)>,
    m1: int,
    m2: int,
)
    requires
        !conflicts(request),
        forall|m: int| 0 <= m < p.len() ==> (#[trigger] p[m]).1 < request.len() && request[p[m].1
            as int] == p[m].0,
        forall|a: int, b: int| 0 <= a < b < p.len() ==> p[a].1 != p[b].1,
        0 <= m1 < p.len(),
        0 <= m2 < p.len(),
        m1 != m2,
    ensures
        p[m1].0.key != p[m2].0.key,
{
    if p[m1].0.key == p[m2].0.key {
        let i1 = p[m1].1 as int;
        let i2 = p[m2].1 as int;
        assert(i1 != i2);
        if i1 < i2 {
            assert(request[i1].key == request[i2].key);
        } else {
            assert(request[i2].key == request[i1].key);
        }
        assert(false);
    }
}

/// Step 3 to 5 of the retrieval protocol: resolve a whole request against
/// the store.
///
/// A malformed request (the same key twice) is rejected before any lock is
/// acquired.  A request in which some required resource is absent fails as a
/// whole — no partial retrieval is handed out, and the store is left exactly
/// as it was.  Otherwise every named resource that is present is acquired,
/// in ascending key order, and the handles come back in declared order:
/// element `i` of the result answers element `i` of the request.
#[verifier::loop_isolation(false)]
pub fn retrieve<V>(container: &mut Container<V>, request: &Vec<Request>) -> (r: Result<
    Vec<Retrieved>,
    RetrieveError,
>)
    requires
        old(container).wf(),
        old(container).structural_readers() as int + request@.len() <= u64::MAX as int,
        forall|i: int| 0 <= i < request@.len() ==> old(container).available(
            (#[trigger] request@[i]).key,
            request@[i].access,
        ),
    ensures
        final(container).wf(),
        final(container)@ == old(container)@,
        r is Err ==> *final(container) == *old(container),
        r == Err::<Vec<Retrieved>, RetrieveError>(RetrieveError::Conflict) <==> conflicts(
            request@,
        ),
        !conflicts(request@) ==> (r == Err::<Vec<Retrieved>, RetrieveError>(
            RetrieveError::NotFound,
        ) <==> exists|i: int| 0 <= i < request@.len() && (#[trigger] request@[i]).required && !old(container).contains_key(request@[i].key)),
        r matches Ok(out) ==> out@.len() == request@.len() && (forall|i: int|
            0 <= i < request@.len() ==> outcome_ok(
                request@[i],
                #[trigger] out@[i],
                old(container).contains_key(request@[i].key),
            )) && final(container).structural_readers() == old(container).structural_readers()
            + found_count(out@),
        r is Ok ==> forall|i: int| 0 <= i < request@.len() ==> lock_effect(
            *old(container),
            *final(container),
            #[trigger] request@[i],
        ),
        r is Ok ==> forall|k: u64|
            (forall|i: int| 0 <= i < request@.len() ==> (#[trigger] request@[i]).key != k)
                ==> final(container).readers_of(k) == old(container).readers_of(k) && final(container).writer_of(k) == old(container).writer_of(k),
{
    if request_conflicts(request) {
        return Err(RetrieveError::Conflict);
    }
    let n = request.len();
    let mut i: usize = 0;
    while i < n
        invariant
            n == request@.len(),
            i <= n,
            forall|q: int| 0 <= q < i ==> !(#[trigger] request@[q]).required || old(container).contains_key(request@[q].key),
            *container == *old(container),
        decreases n - i,
    {
        if request[i].required && !container.contains_resource(request[i].key) {
            return Err(RetrieveError::NotFound);
        }
        i = i + 1;
    }
    let p = plan(request);
    let mut out: Vec<Retrieved> = Vec::new();
    let mut t: usize = 0;
    while t < n
        invariant
            t <= n,
            out@.len() == t,
            forall|q: int| 0 <= q < t ==> (#[trigger] out@[q]) is NotFound,
        decreases n - t,
    {
        out.push(Retrieved::NotFound);
        t = t + 1;
    }
    proof {
        lemma_found_count_zero(out@);
    }
    let mut m: usize = 0;
    while m < n
        invariant
            n == request@.len(),
            m <= n,
            container.wf(),
            container@ == old(container)@,
            out@.len() == n,
            container.structural_readers() as int == old(container).structural_readers() as int
                + found_count(out@),
            found_count(out@) <= m,
            p@.len() == n,
            sorted_by_key(p@),
            forall|m1: int| 0 <= m1 < n ==> (#[trigger] p@[m1]).1 < n && request@[p@[m1].1 as int]
                == p@[m1].0,
            forall|m1: int, m2: int| 0 <= m1 < m2 < n ==> p@[m1].1 != p@[m2].1,
            forall|i2: int| 0 <= i2 < n ==> covered(p@, i2),
            !conflicts(request@),
            forall|m1: int| m <= m1 < n ==> container.available(
                (#[trigger] p@[m1]).0.key,
                p@[m1].0.access,
            ),
            forall|m1: int| 0 <= m1 < m ==> outcome_ok(
                p@[m1].0,
                #[trigger] out@[p@[m1].1 as int],
                old(container).contains_key(p@[m1].0.key),
            ),
            forall|m1: int| 0 <= m1 < m ==> lock_effect(
                *old(container),
                *container,
                (#[trigger] p@[m1]).0,
            ),
            forall|q: int| 0 <= q < n ==> (#[trigger] out@[q]) is NotFound || covered(
                p@.take(m as int), q),
            forall|k: u64|
                (forall|m1: int| 0 <= m1 < m ==> (#[trigger] p@[m1]).0.key != k)
                    ==> container.readers_of(k) == old(container).readers_of(k)
                    && container.writer_of(k) == old(container).writer_of(k),
        decreases n - m,
    {
        let item = p[m];
        let idx = item.1;
        let ghost mm = m as int;
        let ghost c_before = *container;
        let ghost out_before = out@;
        proof {
            assert(container.available(item.0.key, item.0.access));
        }
        let got = container.get(item.0.key, item.0.access);
        proof {
            assert(out_before[idx as int] is NotFound) by {
                if !(out_before[idx as int] is NotFound) {
                    assert(covered(p@.take(mm), idx as int));
                    let m1 = choose|m1: int|
                        0 <= m1 < p@.take(mm).len() && (#[trigger] p@.take(mm)[m1]).1 == idx as int;
                    assert(p@[m1] == p@.take(mm)[m1]);
                    assert(p@[m1].1 == p@[mm].1);
                }
            }
            lemma_found_count_update(out_before, idx as int, got);
        }
        out[idx] = got;
        m = m + 1;
        proof {
            let pv = p@;
            assert forall|m1: int| 0 <= m1 < n && m1 != mm implies (#[trigger] pv[m1]).0.key
                != item.0.key by {
                lemma_plan_keys_distinct(request@, pv, m1, mm);
            }
            assert forall|m1: int| mm + 1 <= m1 < n implies container.available(
                (#[trigger] pv[m1]).0.key,
                pv[m1].0.access,
            ) by {
                assert(pv[m1].0.key != item.0.key);
                assert(c_before.available(pv[m1].0.key, pv[m1].0.access));
                assert(container.readers_of(pv[m1].0.key) == c_before.readers_of(pv[m1].0.key));
                assert(container.writer_of(pv[m1].0.key) == c_before.writer_of(pv[m1].0.key));
            }
            assert forall|m1: int| 0 <= m1 < mm + 1 implies outcome_ok(
                pv[m1].0,
                #[trigger] out@[pv[m1].1 as int],
                old(container).contains_key(pv[m1].0.key),
            ) by {
                if m1 == mm {
                    assert(out@[idx as int] == got);
                } else {
                    assert(pv[m1].1 != pv[mm].1);
                    assert(out@[pv[m1].1 as int] == out_before[pv[m1].1 as int]);
                }
            }
            assert forall|m1: int| 0 <= m1 < mm + 1 implies lock_effect(
                *old(container),
                *container,
                (#[trigger] pv[m1]).0,
            ) by {
                if m1 < mm {
                    assert(pv[m1].0.key != item.0.key);
                }
            }
            assert forall|q: int| 0 <= q < n && !((#[trigger] out@[q]) is NotFound) implies covered(
                pv.take(mm + 1),
                q,
            ) by {
                if q == idx as int {
                    assert(pv.take(mm + 1)[mm] == pv[mm]);
                    assert(covered(pv.take(mm + 1), q));
                } else {
                    assert(out_before[q] == out@[q]);
                    assert(covered(pv.take(mm), q));
                    let m1 = choose|m1: int|
                        0 <= m1 < pv.take(mm).len() && (#[trigger] pv.take(mm)[m1]).1 == q;
                    assert(pv.take(mm + 1)[m1] == pv.take(mm)[m1]);
                    assert(covered(pv.take(mm + 1), q));
                }
            }
        }
    }
    proof {
        assert forall|i: int| 0 <= i < n implies outcome_ok(
            request@[i],
            #[trigger] out@[i],
            old(container).contains_key(request@[i].key),
        ) by {
            assert(covered(p@, i));
            let m1 = choose|m1: int| 0 <= m1 < p@.len() && (#[trigger] p@[m1]).1 == i;
            assert(request@[p@[m1].1 as int] == p@[m1].0);
        }
        assert forall|i: int| 0 <= i < n implies lock_effect(
            *old(container),
            *container,
            #[trigger] request@[i],
        ) by {
            assert(covered(p@, i));
            let m1 = choose|m1: int| 0 <= m1 < p@.len() && (#[trigger] p@[m1]).1 == i;
            assert(request@[p@[m1].1 as int] == p@[m1].0);
        }
        assert forall|k: u64|
            (forall|i: int| 0 <= i < n ==> (#[trigger] request@[i]).key != k) implies
            container.readers_of(k) == old(container).readers_of(k) && container.writer_of(k)
            == old(container).writer_of(k) by {
            assert forall|m1: int| 0 <= m1 < n implies (#[trigger] p@[m1]).0.key != k by {
                assert(request@[p@[m1].1 as int] == p@[m1].0);
            }
        }
    }
    Ok(out)
}

/// How one resolved request element changes the lock state of its key: a
/// present resource gains one hold in the requested mode; an absent key's
/// locks do not move.
pub open spec fn lock_effect<V>(c0: Container<V>, c1: Container<V>, req: Request) -> bool {
    if c0.contains_key(req.key) {
        match req.access {
            Access::Immutable => c1.readers_of(req.key) == c0.readers_of(req.key) + 1
                && c1.writer_of(req.key) == c0.writer_of(req.key),
            Access::Mutable => c1.writer_of(req.key) && c1.readers_of(req.key) == 0,
        }
    } else {
        c1.readers_of(req.key) == c0.readers_of(req.key) && c1.writer_of(req.key) == c0.writer_of(
            req.key,
        )
    }
}

/// How many elements hold the resource under `key` shared.
pub open spec fn shared_count(s: Seq<Retrieved>, key: u64) -> int
    decreases s.len(),
{
    if s.len() == 0 {
        0
    } else {
        shared_count(s.drop_last(), key) + if s.last() matches Retrieved::Immutable(h) && h.key()
            == key {
            1int
        } else {
            0int
        }
    }
}

proof fn lemma_shared_count_nonneg(s: Seq<Retrieved>, key: u64)
    ensures
        shared_count(s, key) >= 0,
    decreases s.len(),
{
    if s.len() > 0 {
        lemma_shared_count_nonneg(s.drop_last(), key);
    }
}

proof fn lemma_shared_count_pos(s: Seq<Retrieved>, i: int, key: u64)
    requires
        0 <= i < s.len(),
        s[i] matches Retrieved::Immutable(h) && h.key() == key,
    ensures
        shared_count(s, key) >= 1,
    decreases s.len(),
{
    lemma_shared_count_nonneg(s.drop_last(), key);
    if i < s.len() - 1 {
        lemma_shared_count_pos(s.drop_last(), i, key);
    }
}

proof fn lemma_shared_count_absent(s: Seq<Retrieved>, key: u64)
    requires
        forall|i: int|
            0 <= i < s.len() ==> !((#[trigger] s[i]) matches Retrieved::Immutable(h) && h.key()
                == key),
    ensures
        shared_count(s, key) == 0,
    decreases s.len(),
{
    if s.len() > 0 {
        lemma_shared_count_absent(s.drop_last(), key);
    }
}

/// Give back everything one retrieval returned.  Every found handle releases
/// its per-resource hold and the structural read retained under it, exactly
/// once, so the structural count drops by exactly the number of found
/// handles and each key's reader count by the number of shared handles over
/// it.  Several shared handles may name one key; an exclusive handle's key
/// must be its alone, since the exclusion invariant admits no second hold.
#[verifier::loop_isolation(false)]
pub fn release_all<V>(container: &mut Container<V>, handles: Vec<Retrieved>)
    requires
        old(container).wf(),
        forall|i: int|
            0 <= i < handles@.len() ==> ((#[trigger] handles@[i]) matches Retrieved::Mutable(h)
                ==> old(container).holds_at(h.key(), Access::Mutable)),
        forall|i: int|
            0 <= i < handles@.len() ==> ((#[trigger] handles@[i]) matches Retrieved::Immutable(h)
                ==> old(container).contains_key(h.key()) && !old(container).writer_of(h.key())
                && old(container).readers_of(h.key()) >= shared_count(handles@, h.key())),
        forall|i: int, j: int|
            0 <= i < j < handles@.len() && !(handles@[i] is NotFound) && !(handles@[j]
                is NotFound) && handles@[i].spec_key() == handles@[j].spec_key()
                ==> handles@[i] is Immutable && handles@[j] is Immutable,
    ensures
        final(container).wf(),
        final(container)@ == old(container)@,
        final(container).structural_readers() == old(container).structural_readers()
            - found_count(handles@),
        forall|i: int|
            0 <= i < handles@.len() ==> ((#[trigger] handles@[i]) matches Retrieved::Mutable(h)
                ==> !final(container).writer_of(h.key()) && final(container).readers_of(h.key())
                == 0),
        forall|i: int|
            0 <= i < handles@.len() ==> ((#[trigger] handles@[i]) matches Retrieved::Immutable(h)
                ==> final(container).readers_of(h.key()) == old(container).readers_of(h.key())
                - shared_count(handles@, h.key()) && final(container).writer_of(h.key()) == old(
                container,
            ).writer_of(h.key())),
        forall|k: u64|
            (forall|i: int|
                0 <= i < handles@.len() ==> (#[trigger] handles@[i]) is NotFound
                    || handles@[i].spec_key() != k) ==> final(container).readers_of(k) == old(
                container,
            ).readers_of(k) && final(container).writer_of(k) == old(container).writer_of(k),
{
    let ghost all = handles@;
    let mut hs = handles;
    while hs.len() > 0
        invariant
            container.wf(),
            container@ == old(container)@,
            hs@.len() <= all.len(),
            hs@ == all.take(hs@.len() as int),
            container.structural_readers() as int == old(container).structural_readers() as int
                - found_count(all) + found_count(hs@),
            forall|k: u64| #[trigger]
                container.readers_of(k) as int == old(container).readers_of(k) - (shared_count(
                    all,
                    k,
                ) - shared_count(hs@, k)),
            forall|i: int|
                0 <= i < hs@.len() ==> ((#[trigger] all[i]) matches Retrieved::Mutable(h)
                    ==> container.holds_at(h.key(), Access::Mutable)),
            forall|i: int|
                hs@.len() <= i < all.len() ==> ((#[trigger] all[i]) matches Retrieved::Mutable(h)
                    ==> !container.writer_of(h.key()) && container.readers_of(h.key()) == 0),
            forall|k: u64|
                (forall|i: int|
                    hs@.len() <= i < all.len() ==> !((#[trigger] all[i]) matches
                        Retrieved::Mutable(h) && h.key() == k)) ==> container.writer_of(k) == old(
                    container,
                ).writer_of(k),
        decreases hs@.len(),
    {
        let ghost hs0 = hs@;
        let ghost c_before = *container;
        let h = match hs.pop() {
            Some(h) => h,
            None => vstd::pervasive::unreached(),
        };
        proof {
            let m = hs0.len() - 1;
            assert(hs0.drop_last() =~= all.take(m));
            assert(h == all[m]);
            match &h {
                Retrieved::Immutable(hr) => {
                    lemma_shared_count_pos(hs0, m, hr.key());
                    assert(c_before.readers_of(hr.key()) >= shared_count(hs0, hr.key()));
                    assert(c_before.holds_at(hr.key(), Access::Immutable));
                },
                Retrieved::Mutable(_) => {},
                Retrieved::NotFound => {},
            }
        }
        container.release_retrieved(h);
        proof {
            let m = hs0.len() - 1;
            assert forall|k: u64| #[trigger]
                container.readers_of(k) as int == old(container).readers_of(k) - (shared_count(
                    all,
                    k,
                ) - shared_count(hs@, k)) by {
                match h {
                    Retrieved::Mutable(hr) => {
                        if k == hr.key() {
                            old(container).lemma_wf_facts(k);
                            assert forall|i: int|
                                0 <= i < all.len() implies !((#[trigger] all[i]) matches
                                    Retrieved::Immutable(h2) && h2.key() == k) by {
                                if i != m && all[i] is Immutable && all[i].spec_key() == k {
                                    assert(all[i] is Mutable);
                                }
                            }
                            lemma_shared_count_absent(all, k);
                            assert forall|i: int|
                                0 <= i < hs@.len() implies !((#[trigger] hs@[i]) matches
                                    Retrieved::Immutable(h2) && h2.key() == k) by {
                                assert(hs@[i] == all[i]);
                            }
                            lemma_shared_count_absent(hs@, k);
                        }
                    },
                    _ => {},
                }
            }
            assert forall|i: int|
                hs@.len() <= i < all.len() implies ((#[trigger] all[i]) matches
                Retrieved::Mutable(h2) ==> !container.writer_of(h2.key())
                && container.readers_of(h2.key()) == 0) by {
                if all[i] is Mutable && i > m && !(h is NotFound) {
                    if all[i].spec_key() == h.spec_key() {
                        assert(all[i] is Immutable);
                    }
                }
            }
            assert forall|i: int|
                0 <= i < hs@.len() implies ((#[trigger] all[i]) matches Retrieved::Mutable(h2)
                ==> container.holds_at(h2.key(), Access::Mutable)) by {
                if all[i] is Mutable && !(h is NotFound) {
                    if all[i].spec_key() == h.spec_key() {
                        assert(all[i] is Immutable);
                    }
                }
            }
        }
    }
    proof {
        assert(all.take(0) =~= Seq::<Retrieved>::empty());
        assert forall|k: u64|
            (forall|i: int|
                0 <= i < all.len() ==> (#[trigger] all[i]) is NotFound || all[i].spec_key()
                    != k) implies container.readers_of(k) == old(container).readers_of(k)
            && container.writer_of(k) == old(container).writer_of(k) by {
            assert forall|i: int|
                0 <= i < all.len() implies !((#[trigger] all[i]) matches Retrieved::Immutable(h2)
                    && h2.key() == k) by {
                if all[i] is Immutable {
                    assert(!(all[i] is NotFound));
                }
            }
            lemma_shared_count_absent(all, k);
        }
        assert forall|i: int|
            0 <= i < all.len() implies ((#[trigger] all[i]) matches Retrieved::Immutable(h)
            ==> container.readers_of(h.key()) == old(container).readers_of(h.key())
            - shared_count(all, h.key()) && container.writer_of(h.key()) == old(
            container,
        ).writer_of(h.key())) by {
            if all[i] is Immutable {
                let key = all[i].spec_key();
                assert forall|j: int|
                    0 <= j < all.len() implies !((#[trigger] all[j]) matches Retrieved::Mutable(
                        h2,
                    ) && h2.key() == key) by {
                    if j != i && all[j] is Mutable && all[j].spec_key() == key {
                        assert(all[j] is Immutable);
                    }
                }
            }
        }
    }
}

/// The heart of the deadlock-freedom argument, stated over any two planned
/// acquisition orders: if both follow the canonical sort, then any two
/// distinct keys that both plans name are acquired in the same relative
/// order by both.  Two concurrent requests therefore never each hold one of
/// a pair of locks while waiting for the other — no cycle of waiting can
/// form, however the two callers declared their requests.
pub proof fn lemma_consistent_acquisition_order(
    p1: Seq<(Request, usize)>,
    p2: Seq<(Request, usize)>,
    m1: int,
    n1: int,
    m2: int,
    n2: int,
)
    requires
        sorted_by_key(p1),
        sorted_by_key(p2),
        0 <= m1 < p1.len(),
        0 <= n1 < p1.len(),
        0 <= m2 < p2.len(),
        0 <= n2 < p2.len(),
        p1[m1].0.key == p2[m2].0.key,
        p1[n1].0.key == p2[n2].0.key,
        p1[m1].0.key != p1[n1].0.key,
        m1 < n1,
    ensures
        m2 < n2,
{
    assert(p1[m1].0.key <= p1[n1].0.key);
    if n2 <= m2 {
        assert(p2[n2].0.key <= p2[m2].0.key);
    }
}

} // verus!
