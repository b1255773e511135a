use vstd::prelude::*;

verus! {

/// An unsolicited message from the controlled process.
#[derive(Debug, PartialEq, Eq)]
pub struct Event {
    /// The event's name, as it stood in the message.
    pub name: Vec<u8>,
    /// The whole message line, for subscribers that want its other fields.
    pub payload: Vec<u8>,
}

impl View for Event {
    type V = (Seq<u8>, Seq<u8>);

    open spec fn view(&self) -> (Seq<u8>, Seq<u8>) {
        (self.name@, self.payload@)
    }
}

/// A copy of a byte vector.
pub fn copy_bytes(v: &Vec<u8>) -> (r: Vec<u8>)
    ensures
        r@ == v@,
{
    let mut r: Vec<u8> = Vec::new();
    let mut i: usize = 0;
    while i < v.len()
        invariant
            i <= v@.len(),
            r@ == v@.subrange(0, i as int),
        decreases v@.len() - i,
    {
        r.push(v[i]);
        i = i + 1;
        proof {
            assert(r@ =~= v@.subrange(0, i as int));
        }
    }
    proof {
        assert(v@.subrange(0, v@.len() as int) == v@);
    }
    r
}

impl Event {
    /// An independent copy of this event.
    pub fn duplicate(&self) -> (r: Event)
        ensures
            r@ == self@,
    {
        Event { name: copy_bytes(&self.name), payload: copy_bytes(&self.payload) }
    }
}

/// The queue that results from offering `e` to a queue `q` that holds at most
/// `cap` events: when it is full its oldest event is dropped first. A queue of
/// capacity zero holds nothing: each event offered to it is dropped at once.
pub open spec fn push_bounded<T>(q: Seq<T>, e: T, cap: nat) -> Seq<T> {
    if cap == 0 {
        q
    } else if q.len() < cap {
        q.push(e)
    } else {
        q.drop_first().push(e)
    }
}

/// Whether offering one event to a queue of length `len` and capacity `cap`
/// drops an event.
pub open spec fn drops_on_offer(len: nat, cap: nat) -> bool {
    len >= cap
}

/// The queue that results from offering each of `es` in turn to `q`.
pub open spec fn push_all_bounded<T>(q: Seq<T>, es: Seq<T>, cap: nat) -> Seq<T>
    decreases es.len(),
{
    if es.len() == 0 {
        q
    } else {
        push_bounded(push_all_bounded(q, es.drop_last(), cap), es.last(), cap)
    }
}

/// Adds one to a counter that stops at its largest value.
pub open spec fn bump(n: u64) -> u64 {
    if n < u64::MAX {
        (n + 1) as u64
    } else {
        n
    }
}

/// One subscriber's queue of events that wait for delivery.
pub struct Subscription {
    handle: u64,
    capacity: usize,
    queue: Vec<Event>,
    dropped: u64,
}

impl Subscription {
    /// The handle its subscriber knows it by.
    pub closed spec fn handle_view(&self) -> u64 {
        self.handle
    }

    /// How many events its queue holds at most.
    pub closed spec fn capacity_view(&self) -> nat {
        self.capacity as nat
    }

    /// The events waiting, oldest first.
    pub closed spec fn queue_view(&self) -> Seq<(Seq<u8>, Seq<u8>)> {
        self.queue@.map_values(|e: Event| e@)
    }

    /// How many events were dropped because the queue was full.
    pub closed spec fn dropped_view(&self) -> u64 {
        self.dropped
    }

    /// The queue is within its capacity.
    pub closed spec fn wf(&self) -> bool {
        self.queue@.len() <= self.capacity
    }

    /// Queues a copy of `e`, dropping the oldest event first when full.
    fn offer(&mut self, e: &Event)
        requires
            old(self).wf(),
        ensures
            final(self).wf(),
            final(self).handle_view() == old(self).handle_view(),
            final(self).capacity_view() == old(self).capacity_view(),
            final(self).queue_view() == push_bounded(old(self).queue_view(), e@, old(self).capacity_view()),
            final(self).dropped_view() == if drops_on_offer(old(self).queue_view().len(), old(self).capacity_view()) {
                bump(old(self).dropped_view())
            } else {
                old(self).dropped_view()
            },
    {
        let ghost q0 = self.queue@;
        if self.queue.len() >= self.capacity {
            self.dropped = if self.dropped < u64::MAX { self.dropped + 1 } else { self.dropped };
            if self.capacity == 0 {
                return;
            }
            self.queue.remove(0);
        }
        self.queue.push(e.duplicate());
        proof {
            if q0.len() >= self.capacity {
                assert(self.queue@.map_values(|x: Event| x@) =~= q0.map_values(|x: Event| x@).drop_first().push(e@));
            } else {
                assert(self.queue@.map_values(|x: Event| x@) =~= q0.map_values(|x: Event| x@).push(e@));
            }
        }
    }

    /// Takes the oldest event out of the queue.
    fn take(&mut self) -> (r: Option<Event>)
        requires
            old(self).wf(),
        ensures
            final(self).wf(),
            final(self).handle_view() == old(self).handle_view(),
            final(self).capacity_view() == old(self).capacity_view(),
            final(self).dropped_view() == old(self).dropped_view(),
            old(self).queue_view().len() == 0 ==> r is None && final(self).queue_view() == old(self).queue_view(),
            old(self).queue_view().len() > 0 ==> (r matches Some(e) && e@ == old(self).queue_view()[0]
                && final(self).queue_view() == old(self).queue_view().drop_first()),
    {
        if self.queue.len() == 0 {
            None
        } else {
            let ghost q0 = self.queue@;
            let e = self.queue.remove(0);
            proof {
                assert(self.queue@.map_values(|x: Event| x@) =~= q0.map_values(|x: Event| x@).drop_first());
            }
            Some(e)
        }
    }
}

/// `after` is `before` once `e` has been offered to its queue.
pub open spec fn offered(before: Subscription, after: Subscription, e: (Seq<u8>, Seq<u8>)) -> bool {
    &&& after.wf()
    &&& after.handle_view() == before.handle_view()
    &&& after.capacity_view() == before.capacity_view()
    &&& after.queue_view() == push_bounded(before.queue_view(), e, before.capacity_view())
    &&& after.dropped_view() == if drops_on_offer(before.queue_view().len(), before.capacity_view()) {
        bump(before.dropped_view())
    } else {
        before.dropped_view()
    }
}

/// Whether some subscription in `s` has handle `h`.
pub open spec fn has_handle(s: Seq<Subscription>, h: u64) -> bool {
    exists|i: int| 0 <= i < s.len() && s[i].handle_view() == h
}

/// Fans events out to every registered subscriber, each through a bounded
/// queue of its own.
pub struct EventRouter {
    next_handle: u64,
    subs: Vec<Subscription>,
}

impl EventRouter {
    /// The subscriptions, in the order they were made.
    pub closed spec fn subs_view(&self) -> Seq<Subscription> {
        self.subs@
    }

    /// The handle that the next subscription gets.
    pub closed spec fn next_handle_view(&self) -> u64 {
        self.next_handle
    }

    /// Each queue is within its capacity; handles are distinct and below the next one.
    pub open spec fn wf(&self) -> bool {
        &&& forall|i: int| 0 <= i < self.subs_view().len() ==> (#[trigger] self.subs_view()[i]).wf()
        &&& forall|i: int| 0 <= i < self.subs_view().len()
            ==> (#[trigger] self.subs_view()[i]).handle_view() < self.next_handle_view()
        &&& forall|i: int, j: int| 0 <= i < self.subs_view().len() && 0 <= j < self.subs_view().len() && i != j
            ==> (#[trigger] self.subs_view()[i]).handle_view() != (#[trigger] self.subs_view()[j]).handle_view()
    }

    /// A router with no subscribers.
    pub fn new() -> (r: EventRouter)
        ensures
            r.wf(),
            r.subs_view() == Seq::<Subscription>::empty(),
            r.next_handle_view() == 0,
    {
        EventRouter { next_handle: 0, subs: Vec::new() }
    }

    /// How many subscribers are registered.
    pub fn subscriber_count(&self) -> (r: usize)
        ensures
            r == self.subs_view().len(),
    {
        self.subs.len()
    }

    /// Registers a subscriber whose queue holds at most `capacity` events and
    /// returns its handle; `None`, with nothing changed, once handles run out.
    pub fn subscribe(&mut self, capacity: usize) -> (r: Option<u64>)
        requires
            old(self).wf(),
        ensures
            final(self).wf(),
            old(self).next_handle_view() == u64::MAX ==> r is None && final(self).subs_view() == old(self).subs_view()
                && final(self).next_handle_view() == old(self).next_handle_view(),
            old(self).next_handle_view() < u64::MAX ==> {
                &&& r == Some(old(self).next_handle_view())
                &&& final(self).next_handle_view() == old(self).next_handle_view() + 1
                &&& final(self).subs_view().len() == old(self).subs_view().len() + 1
                &&& final(self).subs_view().drop_last() == old(self).subs_view()
                &&& final(self).subs_view().last().handle_view() == old(self).next_handle_view()
                &&& final(self).subs_view().last().capacity_view() == capacity
                &&& final(self).subs_view().last().queue_view() == Seq::<(Seq<u8>, Seq<u8>)>::empty()
                &&& final(self).subs_view().last().dropped_view() == 0
            },
    {
        if self.next_handle == u64::MAX {
            return None;
        }
        let h = self.next_handle;
        let s = Subscription { handle: h, capacity, queue: Vec::new(), dropped: 0 };
        proof {
            assert(s.queue_view() =~= Seq::<(Seq<u8>, Seq<u8>)>::empty());
        }
        self.subs.push(s);
        self.next_handle = h + 1;
        proof {
            assert(self.subs_view().drop_last() =~= old(self).subs_view());
        }
        Some(h)
    }

    /// Position of the subscription with handle `h`, if any.
    fn find(&self, h: u64) -> (r: Option<usize>)
        ensures
            r matches Some(i) ==> i < self.subs_view().len() && self.subs_view()[i as int].handle_view() == h,
            r is None ==> !has_handle(self.subs_view(), h),
    {
        let mut i: usize = 0;
        while i < self.subs.len()
            invariant
                i <= self.subs_view().len(),
                forall|k: int| 0 <= k < i ==> self.subs_view()[k].handle_view() != h,
            decreases self.subs_view().len() - i,
        {
            if self.subs[i].handle == h {
                return Some(i);
            }
            i = i + 1;
        }
        None
    }

    /// Removes the subscriber with handle `h`; says whether there was one.
    /// Nothing is delivered to it afterwards.
    pub fn unsubscribe(&mut self, h: u64) -> (r: bool)
        requires
            old(self).wf(),
        ensures
            final(self).wf(),
            final(self).next_handle_view() == old(self).next_handle_view(),
            r == has_handle(old(self).subs_view(), h),
            !has_handle(final(self).subs_view(), h),
            !r ==> final(self).subs_view() == old(self).subs_view(),
            r ==> exists|i: int| 0 <= i < old(self).subs_view().len()
                && old(self).subs_view()[i].handle_view() == h
                && final(self).subs_view() == old(self).subs_view().remove(i),
    {
        match self.find(h) {
            None => false,
            Some(i) => {
                let ghost before = self.subs_view();
                self.subs.remove(i);
                proof {
                    assert forall|k: int| 0 <= k < self.subs_view().len() implies
                        self.subs_view()[k] == before[if k < i { k } else { k + 1 }] by {}
                    assert forall|k: int| 0 <= k < self.subs_view().len() implies
                        #[trigger] self.subs_view()[k].handle_view() != h by {
                        assert(self.subs_view()[k] == before[if k < i { k } else { k + 1 }]);
                    }
                    assert forall|a: int, b: int| 0 <= a < self.subs_view().len() && 0 <= b < self.subs_view().len() && a != b
                        implies (#[trigger] self.subs_view()[a]).handle_view() != (#[trigger] self.subs_view()[b]).handle_view() by {
                        assert(self.subs_view()[a] == before[if a < i { a } else { a + 1 }]);
                        assert(self.subs_view()[b] == before[if b < i { b } else { b + 1 }]);
                    }
                }
                true
            },
        }
    }

    /// Offers `e` to every subscriber's queue. Each queue changes by its own
    /// capacity alone: a full one drops its oldest event, the others are not
    /// affected by it.
    pub fn route(&mut self, e: &Event)
        requires
            old(self).wf(),
        ensures
            final(self).wf(),
            final(self).next_handle_view() == old(self).next_handle_view(),
            final(self).subs_view().len() == old(self).subs_view().len(),
            forall|i: int| 0 <= i < old(self).subs_view().len()
                ==> offered(old(self).subs_view()[i], #[trigger] final(self).subs_view()[i], e@),
    {
        let ghost before = self.subs_view();
        let mut i: usize = 0;
        while i < self.subs.len()
            invariant
                self.next_handle == old(self).next_handle,
                before == old(self).subs_view(),
                forall|k: int| 0 <= k < before.len() ==> (#[trigger] before[k]).wf(),
                self.subs_view().len() == before.len(),
                i <= before.len(),
                forall|k: int| 0 <= k < i ==> offered(before[k], #[trigger] self.subs_view()[k], e@),
                forall|k: int| i <= k < before.len() ==> #[trigger] self.subs_view()[k] == before[k],
            decreases before.len() - i,
        {
            let mut s = self.subs.remove(i);
            s.offer(e);
            self.subs.insert(i, s);
            i = i + 1;
        }
        proof {
            assert forall|k: int| 0 <= k < self.subs_view().len() implies (#[trigger] self.subs_view()[k]).wf() by {
                assert(offered(before[k], self.subs_view()[k], e@));
            }
            assert forall|k: int| 0 <= k < self.subs_view().len() implies
                (#[trigger] self.subs_view()[k]).handle_view() < self.next_handle by {
                assert(offered(before[k], self.subs_view()[k], e@));
            }
            assert forall|a: int, b: int| 0 <= a < self.subs_view().len() && 0 <= b < self.subs_view().len() && a != b
                implies (#[trigger] self.subs_view()[a]).handle_view() != (#[trigger] self.subs_view()[b]).handle_view() by {
                assert(offered(before[a], self.subs_view()[a], e@));
                assert(offered(before[b], self.subs_view()[b], e@));
            }
        }
    }

    /// Hands the oldest event waiting for subscriber `h` to it. `None` when
    /// its queue is empty or there is no such subscriber; other queues are
    /// not touched.
    pub fn next_event(&mut self, h: u64) -> (r: Option<Event>)
        requires
            old(self).wf(),
        ensures
            final(self).wf(),
            final(self).next_handle_view() == old(self).next_handle_view(),
            !has_handle(old(self).subs_view(), h) ==> r is None && final(self).subs_view() == old(self).subs_view(),
            has_handle(old(self).subs_view(), h) ==> exists|i: int| {
                &&& 0 <= i < old(self).subs_view().len()
                &&& #[trigger] old(self).subs_view()[i].handle_view() == h
                &&& final(self).subs_view().len() == old(self).subs_view().len()
                &&& forall|k: int| 0 <= k < old(self).subs_view().len() && k != i
                    ==> #[trigger] final(self).subs_view()[k] == old(self).subs_view()[k]
                &&& final(self).subs_view()[i].handle_view() == h
                &&& final(self).subs_view()[i].capacity_view() == old(self).subs_view()[i].capacity_view()
                &&& final(self).subs_view()[i].dropped_view() == old(self).subs_view()[i].dropped_view()
                &&& old(self).subs_view()[i].queue_view().len() == 0 ==> r is None
                    && final(self).subs_view()[i].queue_view() == old(self).subs_view()[i].queue_view()
                &&& old(self).subs_view()[i].queue_view().len() > 0 ==> (r matches Some(e)
                    && e@ == old(self).subs_view()[i].queue_view()[0]
                    && final(self).subs_view()[i].queue_view() == old(self).subs_view()[i].queue_view().drop_first())
            },
    {
        match self.find(h) {
            None => None,
            Some(i) => {
                let ghost before = self.subs_view();
                assert(before[i as int].wf());
                let mut s = self.subs.remove(i);
                let r = s.take();
                self.subs.insert(i, s);
                proof {
                    assert(self.subs_view() == before.update(i as int, s));
                    assert forall|a: int, b: int| 0 <= a < self.subs_view().len() && 0 <= b < self.subs_view().len() && a != b
                        implies (#[trigger] self.subs_view()[a]).handle_view() != (#[trigger] self.subs_view()[b]).handle_view() by {
                        assert(self.subs_view()[a].handle_view() == before[a].handle_view());
                        assert(self.subs_view()[b].handle_view() == before[b].handle_view());
                    }
                    assert forall|k: int| 0 <= k < self.subs_view().len() implies
                        (#[trigger] self.subs_view()[k]).handle_view() < self.next_handle by {
                        assert(self.subs_view()[k].handle_view() == before[k].handle_view());
                    }
                    assert(before[i as int].handle_view() == h);
                }
                r
            },
        }
    }

    /// How many events wait for subscriber `h`, if it is registered.
    pub fn queue_len(&self, h: u64) -> (r: Option<usize>)
        ensures
            !has_handle(self.subs_view(), h) ==> r is None,
            has_handle(self.subs_view(), h) ==> exists|i: int| 0 <= i < self.subs_view().len()
                && #[trigger] self.subs_view()[i].handle_view() == h
                && r is Some && r->0 == self.subs_view()[i].queue_view().len(),
    {
        match self.find(h) {
            None => None,
            Some(i) => Some(self.subs[i].queue.len()),
        }
    }

    /// How many events subscriber `h` lost to a full queue, if it is registered.
    pub fn dropped_count(&self, h: u64) -> (r: Option<u64>)
        ensures
            !has_handle(self.subs_view(), h) ==> r is None,
            has_handle(self.subs_view(), h) ==> exists|i: int| 0 <= i < self.subs_view().len()
                && #[trigger] self.subs_view()[i].handle_view() == h
                && r == Some(self.subs_view()[i].dropped_view()),
    {
        match self.find(h) {
            None => None,
            Some(i) => Some(self.subs[i].dropped),
        }
    }
}

/// A subscriber's queue holds events in the order they arrived: after events
/// `es` are offered one by one to a queue `q` within its capacity, it holds
/// the newest `cap` of `q` followed by `es`, in arrival order, and only the
/// oldest ones were dropped.
pub proof fn lemma_queue_keeps_arrival_order<T>(q: Seq<T>, es: Seq<T>, cap: nat)
    requires
        cap >= 1,
        q.len() <= cap,
    ensures
        push_all_bounded(q, es, cap) == (q + es).subrange(
            if q.len() + es.len() > cap { q.len() + es.len() - cap } else { 0 },
            (q.len() + es.len()) as int,
        ),
    decreases es.len(),
{
    let all = q + es;
    let n: int = (q.len() + es.len()) as int;
    if es.len() == 0 {
        assert(all.subrange(0, n) =~= q);
    } else {
        let d = es.drop_last();
        lemma_queue_keeps_arrival_order(q, d, cap);
        let m = n - 1;
        let lo: int = if m > cap { m - cap } else { 0 };
        let r = push_all_bounded(q, d, cap);
        assert((q + d) =~= all.subrange(0, m));
        assert(r =~= all.subrange(lo, m));
        assert(all[m] == es.last());
        let lo2: int = if n > cap { n - cap } else { 0 };
        if r.len() < cap {
            assert(r.push(es.last()) =~= all.subrange(lo2, n));
        } else {
            assert(r.drop_first().push(es.last()) =~= all.subrange(lo2, n));
        }
    }
}

} // verus!
