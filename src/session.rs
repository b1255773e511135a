use vstd::prelude::*;

use crate::codec::{command_frame, decode, decoded, success_text, encode_command, has_newline, DecodeError, Inbound, InboundView};
use crate::correlator::{completions_of, distinct_ids, expired_at, has_id, live_at, Completion, Correlator, Outcome, Pending};
use crate::identity::{identity_verdict, verify_identity, IdentityError};
use crate::router::{has_handle, offered, Event, EventRouter, Subscription};

verus! {

/// Why a command was not sent.
#[derive(Debug, Clone, Copy, PartialEq, Eq)]
pub enum SubmitError {
    /// The command name or an argument holds a newline; nothing was sent.
    InvalidArgument,
    /// The session is closed.
    ConnectionClosed,
    /// Every request identifier has been handed out.
    IdsExhausted,
}

/// What became of one inbound line.
#[derive(Debug, PartialEq, Eq)]
pub enum Delivery {
    /// It answered a pending request, which is now resolved.
    Resolved(Completion),
    /// It answered a request that is not pending; it was dropped.
    Unmatched(u64),
    /// It was an event, offered to every subscriber.
    Routed,
    /// It could not be decoded; it was dropped.
    Anomaly(DecodeError),
    /// The session is closed; it was dropped.
    Ignored,
}

/// What a subscriber finds when it looks for its next event.
#[derive(Debug, PartialEq, Eq)]
pub enum Feed {
    /// The oldest event that waited for it, now taken out of its queue.
    Event(Event),
    /// Nothing waits yet; the session is open.
    Waiting,
    /// Nothing waits and the session has closed: no event will come.
    Ended,
    /// No subscriber has this handle.
    Unknown,
}

/// Whether `o` is how a response with `error` and `data` resolves its request.
pub open spec fn outcome_of(o: Outcome, error: Seq<u8>, data: Seq<u8>) -> bool {
    if error == success_text() {
        o matches Outcome::Success(d) && d@ == data
    } else {
        o matches Outcome::Failure(e) && e@ == error
    }
}

/// Whether two byte vectors hold the same bytes.
fn same_bytes(a: &Vec<u8>, b: &Vec<u8>) -> (r: bool)
    ensures
        r == (a@ == b@),
{
    if a.len() != b.len() {
        return false;
    }
    let mut i: usize = 0;
    while i < a.len()
        invariant
            a@.len() == b@.len(),
            i <= a@.len(),
            forall|k: int| 0 <= k < i ==> a@[k] == b@[k],
        decreases a@.len() - i,
    {
        if a[i] != b[i] {
            return false;
        }
        i = i + 1;
    }
    proof {
        assert(a@ =~= b@);
    }
    true
}

/// One verified connection to the controlled process: the requests in flight
/// and the subscribers to its events. It holds no transport; its owner
/// writes the frames it hands out, feeds it the lines read, the passing of
/// time and the end of the stream, and hands out the resolutions.
pub struct Session {
    correlator: Correlator,
    router: EventRouter,
    closed: bool,
}

impl Session {
    /// The requests in flight, in the order they were submitted.
    pub closed spec fn pending_view(&self) -> Seq<Pending> {
        self.correlator.pending_view()
    }

    /// The identifier that the next submitted request gets.
    pub closed spec fn next_id_view(&self) -> u64 {
        self.correlator.next_id_view()
    }

    /// The subscriptions, in the order they were made.
    pub closed spec fn subs_view(&self) -> Seq<Subscription> {
        self.router.subs_view()
    }

    /// Whether the session has closed.
    pub closed spec fn is_closed(&self) -> bool {
        self.closed
    }

    /// The request table and the router keep their invariants.
    pub closed spec fn parts_wf(&self) -> bool {
        self.correlator.wf() && self.router.wf()
    }

    /// The invariants hold; among them, identifiers in flight are pairwise
    /// distinct.
    pub open spec fn wf(&self) -> bool {
        &&& self.parts_wf()
        &&& distinct_ids(self.pending_view())
    }

    /// The handle that the next subscription gets.
    pub closed spec fn next_handle_view(&self) -> u64 {
        self.router.next_handle_view()
    }

    /// Establishes a session on a connection whose endpoint is owned by
    /// `observed`, when the caller expects `expected`. It is refused, before
    /// anything can be sent, exactly when the identity check fails.
    pub fn open(expected: Option<u32>, observed: Option<u32>, first_id: u64) -> (r: Result<Session, IdentityError>)
        ensures
            identity_verdict(expected, observed) matches Err(e) ==> r == Err::<Session, IdentityError>(e),
            identity_verdict(expected, observed) is Ok ==> (r matches Ok(s) && s.wf() && !s.is_closed()
                && s.pending_view() == Seq::<Pending>::empty() && s.next_id_view() == first_id
                && s.subs_view() == Seq::<Subscription>::empty() && s.next_handle_view() == 0),
    {
        match verify_identity(expected, observed) {
            Err(e) => Err(e),
            Ok(()) => Ok(Session { correlator: Correlator::new(first_id), router: EventRouter::new(), closed: false }),
        }
    }

    /// Whether the session is closed.
    pub fn closed(&self) -> (r: bool)
        ensures
            r == self.is_closed(),
    {
        self.closed
    }

    /// How many requests are in flight.
    pub fn pending_count(&self) -> (r: usize)
        requires
            self.wf(),
        ensures
            r == self.pending_view().len(),
    {
        self.correlator.pending_count()
    }

    /// Whether request `id` is in flight.
    pub fn is_pending(&self, id: u64) -> (r: bool)
        requires
            self.wf(),
        ensures
            r == has_id(self.pending_view(), id),
    {
        self.correlator.is_pending(id)
    }

    /// Registers command `name` with `args`, submitted at `now` with
    /// `timeout`, and returns its identifier and the frame to write.
    /// Nothing changes when it fails.
    pub fn submit(&mut self, name: &Vec<u8>, args: &Vec<Vec<u8>>, now: u64, timeout: u64)
        -> (r: Result<(u64, Vec<u8>), SubmitError>)
        requires
            old(self).wf(),
        ensures
            final(self).wf(),
            final(self).is_closed() == old(self).is_closed(),
            final(self).subs_view() == old(self).subs_view(),
            r is Err ==> final(self).pending_view() == old(self).pending_view()
                && final(self).next_id_view() == old(self).next_id_view(),
            old(self).is_closed() ==> r == Err::<(u64, Vec<u8>), SubmitError>(SubmitError::ConnectionClosed),
            !old(self).is_closed() && (has_newline(name@) || exists|k: int| 0 <= k < args@.len() && has_newline(#[trigger] args@[k]@))
                ==> r == Err::<(u64, Vec<u8>), SubmitError>(SubmitError::InvalidArgument),
            !old(self).is_closed() && !(has_newline(name@) || exists|k: int| 0 <= k < args@.len() && has_newline(#[trigger] args@[k]@))
                && old(self).next_id_view() == u64::MAX
                ==> r == Err::<(u64, Vec<u8>), SubmitError>(SubmitError::IdsExhausted),
            !old(self).is_closed() && !(has_newline(name@) || exists|k: int| 0 <= k < args@.len() && has_newline(#[trigger] args@[k]@))
                && old(self).next_id_view() < u64::MAX ==> (r matches Ok((id, frame))
                    && id == old(self).next_id_view()
                    && !has_id(old(self).pending_view(), id)
                    && has_id(final(self).pending_view(), id)
                    && frame@ == command_frame(name@, args@.map_values(|a: Vec<u8>| a@), id)
                    && final(self).next_id_view() == id + 1
                    && final(self).pending_view() == old(self).pending_view().push(
                        Pending { id: id, submitted_at: now, timeout: timeout },
                    )),
    {
        if self.closed {
            return Err(SubmitError::ConnectionClosed);
        }
        let id = self.correlator.next_id();
        match encode_command(name, args, id) {
            Err(_) => Err(SubmitError::InvalidArgument),
            Ok(frame) => match self.correlator.submit(now, timeout) {
                None => Err(SubmitError::IdsExhausted),
                Some(got) => Ok((got, frame)),
            },
        }
    }

    /// Takes in one line read from the controlled process: an answer
    /// resolves its pending request, an answer to no pending request and a
    /// line that cannot be decoded are dropped, and an event goes to every
    /// subscriber. Nothing else changes.
    pub fn on_line(&mut self, line: &Vec<u8>) -> (r: Delivery)
        requires
            old(self).wf(),
        ensures
            final(self).wf(),
            final(self).is_closed() == old(self).is_closed(),
            final(self).next_id_view() == old(self).next_id_view(),
            old(self).is_closed() ==> r == Delivery::Ignored && *final(self) == *old(self),
            !old(self).is_closed() ==> match decoded(line@) {
                Err(e) => r == Delivery::Anomaly(e) && *final(self) == *old(self),
                Ok(InboundView::Response(id, error, data)) => {
                    &&& final(self).subs_view() == old(self).subs_view()
                    &&& !has_id(old(self).pending_view(), id) ==> r == Delivery::Unmatched(id)
                        && final(self).pending_view() == old(self).pending_view()
                    &&& has_id(old(self).pending_view(), id) ==> (r matches Delivery::Resolved(c)
                        && c.id == id && outcome_of(c.outcome, error, data)
                        && exists|i: int| 0 <= i < old(self).pending_view().len()
                            && old(self).pending_view()[i].id == id
                            && final(self).pending_view() == old(self).pending_view().remove(i))
                },
                Ok(InboundView::Event(name, payload)) => {
                    &&& r == Delivery::Routed
                    &&& final(self).pending_view() == old(self).pending_view()
                    &&& final(self).subs_view().len() == old(self).subs_view().len()
                    &&& forall|i: int| 0 <= i < old(self).subs_view().len()
                        ==> offered(old(self).subs_view()[i], #[trigger] final(self).subs_view()[i], (name, payload))
                },
            },
    {
        if self.closed {
            return Delivery::Ignored;
        }
        match decode(line) {
            Err(e) => Delivery::Anomaly(e),
            Ok(Inbound::Response { request_id, error, data }) => {
                let success: Vec<u8> = vec![115u8, 117u8, 99u8, 99u8, 101u8, 115u8, 115u8];
                proof {
                    assert(success@ =~= success_text());
                }
                let outcome = if same_bytes(&error, &success) {
                    Outcome::Success(data)
                } else {
                    Outcome::Failure(error)
                };
                match self.correlator.resolve(request_id, outcome) {
                    None => Delivery::Unmatched(request_id),
                    Some(c) => Delivery::Resolved(c),
                }
            },
            Ok(Inbound::Event(e)) => {
                self.router.route(&e);
                Delivery::Routed
            },
        }
    }

    /// Resolves with `Timeout` every request whose timeout has run out at `now`.
    pub fn on_tick(&mut self, now: u64) -> (r: Vec<Completion>)
        requires
            old(self).wf(),
        ensures
            final(self).wf(),
            final(self).is_closed() == old(self).is_closed(),
            final(self).next_id_view() == old(self).next_id_view(),
            final(self).subs_view() == old(self).subs_view(),
            final(self).pending_view() == live_at(old(self).pending_view(), now),
            r@ == completions_of(expired_at(old(self).pending_view(), now), Outcome::Timeout),
    {
        self.correlator.expire(now)
    }

    /// Gives up on request `id`, as a timeout would: it is resolved with
    /// `Timeout` if it is in flight; otherwise nothing changes.
    pub fn cancel(&mut self, id: u64) -> (r: Option<Completion>)
        requires
            old(self).wf(),
        ensures
            final(self).wf(),
            final(self).is_closed() == old(self).is_closed(),
            final(self).next_id_view() == old(self).next_id_view(),
            final(self).subs_view() == old(self).subs_view(),
            has_id(old(self).pending_view(), id) ==> {
                &&& r == Some(Completion { id: id, outcome: Outcome::Timeout })
                &&& exists|i: int| 0 <= i < old(self).pending_view().len()
                    && old(self).pending_view()[i].id == id
                    && final(self).pending_view() == old(self).pending_view().remove(i)
            },
            !has_id(old(self).pending_view(), id) ==> r is None && final(self).pending_view() == old(self).pending_view(),
    {
        self.correlator.resolve(id, Outcome::Timeout)
    }

    /// Closes the session: every request in flight resolves with
    /// `ConnectionClosed`, and none is left. Subscribers keep the events that
    /// wait for them; once those are taken, `poll_event` tells each that the
    /// session has ended.
    pub fn close(&mut self) -> (r: Vec<Completion>)
        requires
            old(self).wf(),
        ensures
            final(self).wf(),
            final(self).is_closed(),
            final(self).next_id_view() == old(self).next_id_view(),
            final(self).subs_view() == old(self).subs_view(),
            final(self).pending_view() == Seq::<Pending>::empty(),
            r@ == completions_of(old(self).pending_view(), Outcome::ConnectionClosed),
    {
        self.closed = true;
        self.correlator.close()
    }

    /// Registers a subscriber whose queue holds at most `capacity` events.
    pub fn subscribe(&mut self, capacity: usize) -> (r: Option<u64>)
        requires
            old(self).wf(),
        ensures
            final(self).wf(),
            final(self).is_closed() == old(self).is_closed(),
            final(self).pending_view() == old(self).pending_view(),
            final(self).next_id_view() == old(self).next_id_view(),
            old(self).next_handle_view() == u64::MAX ==> r is None,
            old(self).next_handle_view() < u64::MAX ==> r == Some(old(self).next_handle_view())
                && final(self).next_handle_view() == old(self).next_handle_view() + 1,
            r is None ==> final(self).subs_view() == old(self).subs_view(),
            r matches Some(h) ==> {
                &&& !has_handle(old(self).subs_view(), h)
                &&& final(self).subs_view().last().dropped_view() == 0
                &&& final(self).subs_view().drop_last() == old(self).subs_view()
                &&& final(self).subs_view().len() == old(self).subs_view().len() + 1
                &&& final(self).subs_view().last().handle_view() == h
                &&& final(self).subs_view().last().capacity_view() == capacity
                &&& final(self).subs_view().last().queue_view().len() == 0
            },
    {
        let ghost before = self.router.subs_view();
        let r = self.router.subscribe(capacity);
        proof {
            if r is Some {
                assert forall|i: int| 0 <= i < before.len() implies before[i].handle_view() != r->0 by {
                    assert(before[i] == self.router.subs_view()[i]);
                }
            }
        }
        r
    }

    /// Removes subscriber `h`; says whether there was one.
    pub fn unsubscribe(&mut self, h: u64) -> (r: bool)
        requires
            old(self).wf(),
        ensures
            final(self).wf(),
            final(self).is_closed() == old(self).is_closed(),
            final(self).pending_view() == old(self).pending_view(),
            final(self).next_id_view() == old(self).next_id_view(),
            r == has_handle(old(self).subs_view(), h),
            !has_handle(final(self).subs_view(), h),
            !r ==> final(self).subs_view() == old(self).subs_view(),
            r ==> exists|i: int| 0 <= i < old(self).subs_view().len()
                && old(self).subs_view()[i].handle_view() == h
                && final(self).subs_view() == old(self).subs_view().remove(i),
    {
        let ghost before = self.router.subs_view();
        let r = self.router.unsubscribe(h);
        proof {
            if r {
                let i = choose|i: int| 0 <= i < before.len() && before[i].handle_view() == h
                    && self.router.subs_view() == before.remove(i);
                assert(old(self).subs_view()[i].handle_view() == h);
            }
        }
        r
    }

    /// Hands subscriber `h` the oldest event waiting for it.
    pub fn next_event(&mut self, h: u64) -> (r: Option<Event>)
        requires
            old(self).wf(),
        ensures
            final(self).wf(),
            final(self).is_closed() == old(self).is_closed(),
            final(self).pending_view() == old(self).pending_view(),
            final(self).next_id_view() == old(self).next_id_view(),
            !has_handle(old(self).subs_view(), h) ==> r is None && final(self).subs_view() == old(self).subs_view(),
            has_handle(old(self).subs_view(), h) ==> exists|i: int| {
                &&& 0 <= i < old(self).subs_view().len()
                &&& #[trigger] old(self).subs_view()[i].handle_view() == h
                &&& final(self).subs_view().len() == old(self).subs_view().len()
                &&& forall|k: int| 0 <= k < old(self).subs_view().len() && k != i
                    ==> #[trigger] final(self).subs_view()[k] == old(self).subs_view()[k]
                &&& final(self).subs_view()[i].handle_view() == h
                &&& final(self).subs_view()[i].capacity_view() == old(self).subs_view()[i].capacity_view()
                &&& final(self).subs_view()[i].dropped_view() == old(self).subs_view()[i].dropped_view()
                &&& old(self).subs_view()[i].queue_view().len() == 0 ==> r is None
                    && final(self).subs_view()[i].queue_view() == old(self).subs_view()[i].queue_view()
                &&& old(self).subs_view()[i].queue_view().len() > 0 ==> (r matches Some(e)
                    && e@ == old(self).subs_view()[i].queue_view()[0]
                    && final(self).subs_view()[i].queue_view() == old(self).subs_view()[i].queue_view().drop_first())
            },
    {
        self.router.next_event(h)
    }

    /// Hands subscriber `h` the oldest event waiting for it; when none waits,
    /// says whether one may still come (`Waiting`) or the session has closed
    /// (`Ended`).
    pub fn poll_event(&mut self, h: u64) -> (r: Feed)
        requires
            old(self).wf(),
        ensures
            final(self).wf(),
            final(self).is_closed() == old(self).is_closed(),
            final(self).pending_view() == old(self).pending_view(),
            final(self).next_id_view() == old(self).next_id_view(),
            !has_handle(old(self).subs_view(), h) ==> r == Feed::Unknown && final(self).subs_view() == old(self).subs_view(),
            has_handle(old(self).subs_view(), h) ==> exists|i: int| {
                &&& 0 <= i < old(self).subs_view().len()
                &&& #[trigger] old(self).subs_view()[i].handle_view() == h
                &&& old(self).subs_view()[i].queue_view().len() == 0 ==> final(self).subs_view() == old(self).subs_view()
                    && r == (if old(self).is_closed() { Feed::Ended } else { Feed::Waiting })
                &&& old(self).subs_view()[i].queue_view().len() > 0 ==> (r matches Feed::Event(e)
                    && e@ == old(self).subs_view()[i].queue_view()[0]
                    && final(self).subs_view().len() == old(self).subs_view().len()
                    && final(self).subs_view()[i].queue_view() == old(self).subs_view()[i].queue_view().drop_first()
                    && (forall|k: int| 0 <= k < old(self).subs_view().len() && k != i
                        ==> #[trigger] final(self).subs_view()[k] == old(self).subs_view()[k]))
            },
    {
        let ghost before = self.router.subs_view();
        let ql = self.router.queue_len(h);
        if ql.is_none() {
            return Feed::Unknown;
        }
        let ghost i = choose|i: int| 0 <= i < before.len() && #[trigger] before[i].handle_view() == h
            && ql is Some && ql->0 == before[i].queue_view().len();
        proof {
            assert forall|j: int| 0 <= j < before.len() && #[trigger] before[j].handle_view() == h implies j == i by {
                if j != i {
                    assert(before[j].handle_view() != before[i].handle_view());
                }
            }
        }
        if ql == Some(0usize) {
            if self.closed {
                Feed::Ended
            } else {
                Feed::Waiting
            }
        } else {
            let got = self.router.next_event(h);
            match got {
                Some(e) => Feed::Event(e),
                None => Feed::Waiting,
            }
        }
    }

    /// How many events subscriber `h` lost to a full queue.
    pub fn dropped_count(&self, h: u64) -> (r: Option<u64>)
        ensures
            !has_handle(self.subs_view(), h) ==> r is None,
            has_handle(self.subs_view(), h) ==> exists|i: int| 0 <= i < self.subs_view().len()
                && #[trigger] self.subs_view()[i].handle_view() == h
                && r == Some(self.subs_view()[i].dropped_view()),
    {
        self.router.dropped_count(h)
    }
}

} // verus!
