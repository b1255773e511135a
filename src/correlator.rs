use vstd::prelude::*;

verus! {

/// How one submitted request was resolved.
#[derive(Debug, PartialEq, Eq)]
pub enum Outcome {
    /// The controlled process answered with success; the payload is the raw text of its data.
    Success(Vec<u8>),
    /// The controlled process answered with an error; the bytes are its error string.
    Failure(Vec<u8>),
    /// No answer came within the request's timeout, or the caller gave up.
    Timeout,
    /// The session closed while the request was pending.
    ConnectionClosed,
}

/// The resolution of the request with identifier `id`.
#[derive(Debug, PartialEq, Eq)]
pub struct Completion {
    pub id: u64,
    pub outcome: Outcome,
}

/// A request that was sent and waits for its answer.
#[derive(Debug, Clone, Copy, PartialEq, Eq)]
pub struct Pending {
    pub id: u64,
    /// When it was submitted, in milliseconds of the session's clock.
    pub submitted_at: u64,
    /// How long it may wait, in milliseconds.
    pub timeout: u64,
}

/// Whether a pending request has waited its whole timeout at time `now`.
pub open spec fn is_expired(p: Pending, now: u64) -> bool {
    p.submitted_at <= now && now - p.submitted_at >= p.timeout
}

/// The identifiers of a sequence of pending requests, in order.
pub open spec fn ids_of(s: Seq<Pending>) -> Seq<u64> {
    s.map_values(|p: Pending| p.id)
}

/// Whether some request in `s` carries identifier `id`.
pub open spec fn has_id(s: Seq<Pending>, id: u64) -> bool {
    exists|i: int| 0 <= i < s.len() && s[i].id == id
}

/// No identifier occurs twice.
pub open spec fn distinct_ids(s: Seq<Pending>) -> bool {
    forall|i: int, j: int| 0 <= i < s.len() && 0 <= j < s.len() && i != j ==> s[i].id != s[j].id
}

/// The requests of `s` that are still within their timeout at `now`, in order.
pub open spec fn live_at(s: Seq<Pending>, now: u64) -> Seq<Pending>
    decreases s.len(),
{
    if s.len() == 0 {
        s
    } else {
        let rest = live_at(s.drop_last(), now);
        if is_expired(s.last(), now) {
            rest
        } else {
            rest.push(s.last())
        }
    }
}

/// The requests of `s` whose timeout has run out at `now`, in order.
pub open spec fn expired_at(s: Seq<Pending>, now: u64) -> Seq<Pending>
    decreases s.len(),
{
    if s.len() == 0 {
        s
    } else {
        let rest = expired_at(s.drop_last(), now);
        if is_expired(s.last(), now) {
            rest.push(s.last())
        } else {
            rest
        }
    }
}

/// The completions that resolve each request of `s` with `outcome`, in order.
pub open spec fn completions_of(s: Seq<Pending>, outcome: Outcome) -> Seq<Completion> {
    s.map_values(|p: Pending| Completion { id: p.id, outcome: outcome })
}

/// The table of requests in flight on one session: it hands out identifiers
/// and resolves each request exactly once.
pub struct Correlator {
    next_id: u64,
    pending: Vec<Pending>,
}

impl Correlator {
    /// The requests in flight, in the order they were submitted.
    pub closed spec fn pending_view(&self) -> Seq<Pending> {
        self.pending@
    }

    /// The identifier that the next submitted request gets.
    pub closed spec fn next_id_view(&self) -> u64 {
        self.next_id
    }

    /// Identifiers in flight are pairwise distinct and all below the next one.
    pub open spec fn wf(&self) -> bool {
        &&& distinct_ids(self.pending_view())
        &&& forall|i: int| 0 <= i < self.pending_view().len() ==> self.pending_view()[i].id < self.next_id_view()
    }

    /// An empty table whose first identifier is `first_id`.
    pub fn new(first_id: u64) -> (r: Correlator)
        ensures
            r.wf(),
            r.pending_view() == Seq::<Pending>::empty(),
            r.next_id_view() == first_id,
    {
        Correlator { next_id: first_id, pending: Vec::new() }
    }

    /// The identifier that the next submitted request gets.
    pub fn next_id(&self) -> (r: u64)
        ensures
            r == self.next_id_view(),
    {
        self.next_id
    }

    /// How many requests are in flight.
    pub fn pending_count(&self) -> (r: usize)
        ensures
            r == self.pending_view().len(),
    {
        self.pending.len()
    }

    /// Whether the request `id` is in flight.
    pub fn is_pending(&self, id: u64) -> (r: bool)
        ensures
            r == has_id(self.pending_view(), id),
    {
        let mut i: usize = 0;
        while i < self.pending.len()
            invariant
                i <= self.pending@.len(),
                forall|k: int| 0 <= k < i ==> self.pending@[k].id != id,
            decreases self.pending@.len() - i,
        {
            if self.pending[i].id == id {
                return true;
            }
            i = i + 1;
        }
        false
    }

    /// Registers a new request submitted at `now` that may wait `timeout`
    /// milliseconds, and returns its identifier. Returns `None`, with nothing
    /// changed, only once every identifier below the largest has been handed out.
    pub fn submit(&mut self, now: u64, timeout: u64) -> (r: Option<u64>)
        requires
            old(self).wf(),
        ensures
            final(self).wf(),
            old(self).next_id_view() == u64::MAX ==> r is None && *final(self) == *old(self),
            old(self).next_id_view() < u64::MAX ==> {
                &&& r == Some(old(self).next_id_view())
                &&& final(self).next_id_view() == old(self).next_id_view() + 1
                &&& final(self).pending_view() == old(self).pending_view().push(
                    Pending { id: old(self).next_id_view(), submitted_at: now, timeout: timeout },
                )
            },
            r matches Some(id) ==> !has_id(old(self).pending_view(), id) && has_id(final(self).pending_view(), id),
    {
        if self.next_id == u64::MAX {
            return None;
        }
        let id = self.next_id;
        self.pending.push(Pending { id, submitted_at: now, timeout });
        self.next_id = id + 1;
        assert(self.pending@[self.pending@.len() - 1].id == id);
        Some(id)
    }

    /// Position of the request `id` in the table, if it is in flight.
    fn find(&self, id: u64) -> (r: Option<usize>)
        ensures
            r matches Some(i) ==> i < self.pending@.len() && self.pending@[i as int].id == id,
            r is None ==> !has_id(self.pending@, id),
    {
        let mut i: usize = 0;
        while i < self.pending.len()
            invariant
                i <= self.pending@.len(),
                forall|k: int| 0 <= k < i ==> self.pending@[k].id != id,
            decreases self.pending@.len() - i,
        {
            if self.pending[i].id == id {
                return Some(i);
            }
            i = i + 1;
        }
        None
    }

    /// Resolves the request `id` with `outcome` if it is in flight, removing it
    /// from the table. An identifier that is not in flight (never issued,
    /// already resolved, timed out) changes nothing and yields `None`.
    pub fn resolve(&mut self, id: u64, outcome: Outcome) -> (r: Option<Completion>)
        requires
            old(self).wf(),
        ensures
            final(self).wf(),
            final(self).next_id_view() == old(self).next_id_view(),
            has_id(old(self).pending_view(), id) ==> {
                &&& r == Some(Completion { id: id, outcome: outcome })
                &&& exists|i: int| 0 <= i < old(self).pending_view().len()
                    && old(self).pending_view()[i].id == id
                    && final(self).pending_view() == old(self).pending_view().remove(i)
            },
            !has_id(old(self).pending_view(), id) ==> r is None && *final(self) == *old(self),
            !has_id(final(self).pending_view(), id),
    {
        match self.find(id) {
            None => None,
            Some(i) => {
                let ghost before = self.pending@;
                self.pending.remove(i);
                proof {
                    assert(self.pending@ == before.remove(i as int));
                    assert forall|a: int, b: int|
                        0 <= a < self.pending@.len() && 0 <= b < self.pending@.len() && a != b
                        implies self.pending@[a].id != self.pending@[b].id by {
                        let a0 = if a < i { a } else { a + 1 };
                        let b0 = if b < i { b } else { b + 1 };
                        assert(self.pending@[a] == before[a0]);
                        assert(self.pending@[b] == before[b0]);
                    }
                    assert forall|k: int| 0 <= k < self.pending@.len() implies self.pending@[k].id != id by {
                        let k0 = if k < i { k } else { k + 1 };
                        assert(self.pending@[k] == before[k0]);
                    }
                    assert forall|k: int| 0 <= k < self.pending@.len() implies self.pending@[k].id < self.next_id by {
                        let k0 = if k < i { k } else { k + 1 };
                        assert(self.pending@[k] == before[k0]);
                    }
                }
                Some(Completion { id, outcome })
            },
        }
    }

    /// Resolves with `Timeout` every request whose timeout has run out at
    /// `now`, in submission order, and keeps the others in order.
    pub fn expire(&mut self, now: u64) -> (r: Vec<Completion>)
        requires
            old(self).wf(),
        ensures
            final(self).wf(),
            final(self).next_id_view() == old(self).next_id_view(),
            final(self).pending_view() == live_at(old(self).pending_view(), now),
            r@ == completions_of(expired_at(old(self).pending_view(), now), Outcome::Timeout),
    {
        let ghost before = self.pending@;
        let mut kept: Vec<Pending> = Vec::new();
        let mut done: Vec<Completion> = Vec::new();
        let mut i: usize = 0;
        while i < self.pending.len()
            invariant
                self.pending@ == before,
                i <= before.len(),
                kept@ == live_at(before.subrange(0, i as int), now),
                done@ == completions_of(expired_at(before.subrange(0, i as int), now), Outcome::Timeout),
            decreases before.len() - i,
        {
            let p = self.pending[i];
            proof {
                assert(before.subrange(0, i + 1).drop_last() == before.subrange(0, i as int));
            }
            if p.submitted_at <= now && now - p.submitted_at >= p.timeout {
                done.push(Completion { id: p.id, outcome: Outcome::Timeout });
            } else {
                kept.push(p);
            }
            i = i + 1;
        }
        proof {
            assert(before.subrange(0, before.len() as int) == before);
            lemma_live_within(before, now);
        }
        self.pending = kept;
        done
    }

    /// Resolves every request in flight with `ConnectionClosed`, in submission
    /// order, and leaves the table empty.
    pub fn close(&mut self) -> (r: Vec<Completion>)
        requires
            old(self).wf(),
        ensures
            final(self).wf(),
            final(self).next_id_view() == old(self).next_id_view(),
            final(self).pending_view() == Seq::<Pending>::empty(),
            r@ == completions_of(old(self).pending_view(), Outcome::ConnectionClosed),
    {
        let mut done: Vec<Completion> = Vec::new();
        let mut i: usize = 0;
        while i < self.pending.len()
            invariant
                i <= self.pending@.len(),
                done@ == completions_of(self.pending@.subrange(0, i as int), Outcome::ConnectionClosed),
            decreases self.pending@.len() - i,
        {
            let id = self.pending[i].id;
            done.push(Completion { id, outcome: Outcome::ConnectionClosed });
            i = i + 1;
            proof {
                assert(completions_of(self.pending@.subrange(0, i as int), Outcome::ConnectionClosed)
                    =~= done@);
            }
        }
        proof {
            assert(self.pending@.subrange(0, self.pending@.len() as int) == self.pending@);
        }
        self.pending = Vec::new();
        done
    }
}

/// Every request kept by `live_at` was in the table before, so the kept ones
/// are still distinct and below any bound the table respected.
pub proof fn lemma_live_within(s: Seq<Pending>, now: u64)
    ensures
        forall|k: int| 0 <= k < live_at(s, now).len()
            ==> exists|j: int| 0 <= j < s.len() && s[j] == #[trigger] live_at(s, now)[k],
        distinct_ids(s) ==> distinct_ids(live_at(s, now)),
    decreases s.len(),
{
    if s.len() > 0 {
        let d = s.drop_last();
        lemma_live_within(d, now);
        let rest = live_at(d, now);
        let l = live_at(s, now);
        assert forall|k: int| 0 <= k < l.len()
            implies exists|j: int| 0 <= j < s.len() && s[j] == #[trigger] l[k] by {
            if k < rest.len() {
                assert(l[k] == rest[k]);
                let j = choose|j: int| 0 <= j < d.len() && d[j] == rest[k];
                assert(s[j] == d[j]);
            } else {
                assert(s[s.len() - 1] == l[k]);
            }
        }
        if distinct_ids(s) {
            assert(distinct_ids(d)) by {
                assert forall|a: int, b: int| 0 <= a < d.len() && 0 <= b < d.len() && a != b
                    implies d[a].id != d[b].id by {
                    assert(d[a] == s[a] && d[b] == s[b]);
                }
            }
            if !is_expired(s.last(), now) {
                assert forall|a: int, b: int| 0 <= a < l.len() && 0 <= b < l.len() && a != b
                    implies l[a].id != l[b].id by {
                    if a < rest.len() && b < rest.len() {
                        assert(l[a] == rest[a] && l[b] == rest[b]);
                    } else if a < rest.len() {
                        assert(l[a] == rest[a]);
                        let j = choose|j: int| 0 <= j < d.len() && d[j] == rest[a];
                        assert(d[j] == s[j]);
                    } else {
                        assert(l[b] == rest[b]);
                        let j = choose|j: int| 0 <= j < d.len() && d[j] == rest[b];
                        assert(d[j] == s[j]);
                    }
                }
            }
        }
    }
}

/// The identifier handed to a new request differs from every identifier in
/// flight, so identifiers stay pairwise distinct while pending.
pub proof fn lemma_new_id_distinct(c: Correlator, now: u64, timeout: u64)
    requires
        c.wf(),
        c.next_id_view() < u64::MAX,
    ensures
        !has_id(c.pending_view(), c.next_id_view()),
        distinct_ids(c.pending_view().push(Pending { id: c.next_id_view(), submitted_at: now, timeout: timeout })),
{
    let s = c.pending_view();
    let t = s.push(Pending { id: c.next_id_view(), submitted_at: now, timeout: timeout });
    assert forall|a: int, b: int| 0 <= a < t.len() && 0 <= b < t.len() && a != b
        implies t[a].id != t[b].id by {
        if a < s.len() {
            assert(t[a] == s[a]);
        }
        if b < s.len() {
            assert(t[b] == s[b]);
        }
    }
}

/// Each pending request is resolved once: after it leaves the table by one
/// resolution its identifier is no longer in flight, so no later answer,
/// cancellation, timeout or close can resolve it again, and the other
/// requests stay in flight.
pub proof fn lemma_resolved_once(s: Seq<Pending>, i: int)
    requires
        distinct_ids(s),
        0 <= i < s.len(),
    ensures
        !has_id(s.remove(i), s[i].id),
        distinct_ids(s.remove(i)),
        forall|k: int| 0 <= k < s.len() && k != i ==> has_id(s.remove(i), #[trigger] s[k].id),
{
    let r = s.remove(i);
    assert forall|k: int| 0 <= k < r.len() implies r[k].id != s[i].id by {
        if k < i {
            assert(r[k] == s[k]);
        } else {
            assert(r[k] == s[k + 1]);
        }
    }
    assert forall|a: int, b: int| 0 <= a < r.len() && 0 <= b < r.len() && a != b
        implies r[a].id != r[b].id by {
        let a0 = if a < i { a } else { a + 1 };
        let b0 = if b < i { b } else { b + 1 };
        assert(r[a] == s[a0] && r[b] == s[b0]);
    }
    assert forall|k: int| 0 <= k < s.len() && k != i implies has_id(r, #[trigger] s[k].id) by {
        if k < i {
            assert(r[k] == s[k]);
        } else {
            assert(r[k - 1] == s[k]);
        }
    }
}

/// A sweep of timeouts resolves each pending request exactly when its
/// timeout has run out, and keeps it in flight exactly when it has not:
/// never both, never neither.
pub proof fn lemma_expire_splits(s: Seq<Pending>, now: u64)
    requires
        distinct_ids(s),
    ensures
        forall|k: int| 0 <= k < s.len() ==> (has_id(live_at(s, now), #[trigger] s[k].id) <==> !is_expired(s[k], now)),
        forall|k: int| 0 <= k < s.len() ==> (has_id(expired_at(s, now), #[trigger] s[k].id) <==> is_expired(s[k], now)),
    decreases s.len(),
{
    if s.len() > 0 {
        let d = s.drop_last();
        assert(distinct_ids(d)) by {
            assert forall|a: int, b: int| 0 <= a < d.len() && 0 <= b < d.len() && a != b
                implies d[a].id != d[b].id by {
                assert(d[a] == s[a] && d[b] == s[b]);
            }
        }
        lemma_expire_splits(d, now);
        lemma_live_within(d, now);
        lemma_expired_within(d, now);
        let last = s.last();
        let n = s.len() - 1;
        assert(!has_id(d, last.id)) by {
            assert forall|j: int| 0 <= j < d.len() implies d[j].id != last.id by {
                assert(d[j] == s[j]);
            }
        }
        assert(!has_id(live_at(d, now), last.id)) by {
            if has_id(live_at(d, now), last.id) {
                let k = choose|k: int| 0 <= k < live_at(d, now).len() && live_at(d, now)[k].id == last.id;
                let j = choose|j: int| 0 <= j < d.len() && d[j] == live_at(d, now)[k];
            }
        }
        assert(!has_id(expired_at(d, now), last.id)) by {
            if has_id(expired_at(d, now), last.id) {
                let k = choose|k: int| 0 <= k < expired_at(d, now).len() && expired_at(d, now)[k].id == last.id;
                let j = choose|j: int| 0 <= j < d.len() && d[j] == expired_at(d, now)[k];
            }
        }
        assert forall|k: int| 0 <= k < s.len() implies
            (has_id(live_at(s, now), #[trigger] s[k].id) <==> !is_expired(s[k], now))
            && (has_id(expired_at(s, now), s[k].id) <==> is_expired(s[k], now)) by {
            let l = live_at(s, now);
            let e = expired_at(s, now);
            let ld = live_at(d, now);
            let ed = expired_at(d, now);
            if k == n {
                if is_expired(last, now) {
                    assert(e[e.len() - 1] == last);
                    assert(l == ld);
                } else {
                    assert(l[l.len() - 1] == last);
                    assert(e == ed);
                }
            } else {
                assert(s[k] == d[k]);
                assert(s[k].id != last.id);
                if has_id(ld, s[k].id) {
                    let j = choose|j: int| 0 <= j < ld.len() && ld[j].id == s[k].id;
                    assert(l[j] == ld[j]);
                }
                if has_id(ed, s[k].id) {
                    let j = choose|j: int| 0 <= j < ed.len() && ed[j].id == s[k].id;
                    assert(e[j] == ed[j]);
                }
                if has_id(l, s[k].id) {
                    let j = choose|j: int| 0 <= j < l.len() && l[j].id == s[k].id;
                    if j < ld.len() {
                        assert(l[j] == ld[j]);
                    }
                }
                if has_id(e, s[k].id) {
                    let j = choose|j: int| 0 <= j < e.len() && e[j].id == s[k].id;
                    if j < ed.len() {
                        assert(e[j] == ed[j]);
                    }
                }
            }
        }
    }
}

/// Every request that `expired_at` picks was in the table before.
pub proof fn lemma_expired_within(s: Seq<Pending>, now: u64)
    ensures
        forall|k: int| 0 <= k < expired_at(s, now).len()
            ==> exists|j: int| 0 <= j < s.len() && s[j] == #[trigger] expired_at(s, now)[k],
    decreases s.len(),
{
    if s.len() > 0 {
        let d = s.drop_last();
        lemma_expired_within(d, now);
        let rest = expired_at(d, now);
        let e = expired_at(s, now);
        assert forall|k: int| 0 <= k < e.len()
            implies exists|j: int| 0 <= j < s.len() && s[j] == #[trigger] e[k] by {
            if k < rest.len() {
                assert(e[k] == rest[k]);
                let j = choose|j: int| 0 <= j < d.len() && d[j] == rest[k];
                assert(s[j] == d[j]);
            } else {
                assert(s[s.len() - 1] == e[k]);
            }
        }
    }
}

/// Closing resolves each of the requests in flight, in order, with
/// `ConnectionClosed`: as many resolutions as requests, one for each.
pub proof fn lemma_close_resolves_all(s: Seq<Pending>)
    ensures
        completions_of(s, Outcome::ConnectionClosed).len() == s.len(),
        forall|i: int| 0 <= i < s.len() ==> #[trigger] completions_of(s, Outcome::ConnectionClosed)[i]
            == (Completion { id: s[i].id, outcome: Outcome::ConnectionClosed }),
{
}

/// Each request in flight is resolved exactly once. An answer or a cancel
/// takes it out of the table, after which no resolution finds it again. A
/// sweep at any time at least its timeout after its submission resolves it,
/// and an earlier sweep keeps it. A close resolves it by exactly one
/// completion.
pub proof fn lemma_resolution_exactly_once(s: Seq<Pending>, k: int, now: u64)
    requires
        distinct_ids(s),
        0 <= k < s.len(),
    ensures
        !has_id(s.remove(k), s[k].id),
        s[k].submitted_at + s[k].timeout <= now ==> is_expired(s[k], now),
        is_expired(s[k], now) ==> has_id(expired_at(s, now), s[k].id) && !has_id(live_at(s, now), s[k].id),
        !is_expired(s[k], now) ==> !has_id(expired_at(s, now), s[k].id) && has_id(live_at(s, now), s[k].id),
        forall|j: int| 0 <= j < s.len() ==> (#[trigger] completions_of(s, Outcome::ConnectionClosed)[j].id == s[k].id <==> j == k),
{
    lemma_resolved_once(s, k);
    lemma_expire_splits(s, now);
    assert(has_id(live_at(s, now), s[k].id) <==> !is_expired(s[k], now));
    assert(has_id(expired_at(s, now), s[k].id) <==> is_expired(s[k], now));
    assert forall|j: int| 0 <= j < s.len() implies
        (#[trigger] completions_of(s, Outcome::ConnectionClosed)[j].id == s[k].id <==> j == k) by {
        assert(completions_of(s, Outcome::ConnectionClosed)[j].id == s[j].id);
    }
}

} // verus!
