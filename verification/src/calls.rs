//! Calls on one ring from many threads.
//!
//! A call reads a position, reads the stamp of its slot, tries to move the
//! position on by a compare-and-swap, and, if that succeeds, works on the slot;
//! where another thread was faster it begins again. This module follows any
//! number of threads through any number of calls, one such action at a time in
//! any order, and shows that what goes into the ring comes out of it, once.

use crate::domain::RequestView;
use crate::protocol::{
    law_layout_follows_the_protocol, law_new_ring_is_fresh, law_quiet_ring_is_in_order,
    layout_after, lemma_fresh_ring, lemma_lap, lemma_same_slot, lemma_step_keeps_inv, queued,
    shows, RingStep, SharedRing,
};
use crate::ring::RingView;
use vstd::multiset::Multiset;
use vstd::prelude::*;

verus! {

/// What a thread is about.
pub enum Doing {
    /// It is not in a call.
    Nothing,
    /// It is to read the position for its request.
    Put(RequestView),
    /// It has read the position for its request.
    PutAt(RequestView, int),
    /// It has found the slot of the position free.
    PutReady(RequestView, int),
    /// It has claimed the position.
    Writing(RequestView, int),
    /// It is to read the position for what it takes.
    Get,
    /// It has read the position.
    GetAt(int),
    /// It has found a request published at the position.
    GetReady(int),
    /// It has claimed the position.
    Reading(int),
}

/// A ring, the threads that use it, and what their calls have returned.
#[verifier::ext_equal]
pub struct Calls {
    pub ring: SharedRing,
    pub threads: Map<int, Doing>,
    /// The requests whose enqueueing returned success.
    pub accepted: Multiset<RequestView>,
    /// The requests that dequeueing returned.
    pub delivered: Multiset<RequestView>,
}

/// One action of a thread.
pub enum CallEvent {
    /// It calls for a request to be put in.
    CallPut(int, RequestView),
    /// It calls for a request to be taken out.
    CallGet(int),
    /// It reads the position.
    Load(int),
    /// It reads the stamp of the slot, and goes on, begins again, or returns
    /// because the ring is full or empty.
    Look(int),
    /// Its compare-and-swap succeeds: the position is still the one that it read.
    Swap(int),
    /// Its compare-and-swap fails, and tells it the position.
    Miss(int),
    /// It works on its slot, stamps it, and returns.
    Finish(int),
}

impl CallEvent {
    /// The thread that acts.
    pub open spec fn thread(self) -> int {
        match self {
            CallEvent::CallPut(t, _) => t,
            CallEvent::CallGet(t) => t,
            CallEvent::Load(t) => t,
            CallEvent::Look(t) => t,
            CallEvent::Swap(t) => t,
            CallEvent::Miss(t) => t,
            CallEvent::Finish(t) => t,
        }
    }
}

impl Calls {
    /// What the acting thread is about after an action, if it can be taken.
    pub open spec fn doing_after(self, event: CallEvent) -> Option<Doing> {
        let r = self.ring;
        match (event, self.threads[event.thread()]) {
            (CallEvent::CallPut(_, request), Doing::Nothing) => Some(Doing::Put(request)),
            (CallEvent::CallGet(_), Doing::Nothing) => Some(Doing::Get),
            (CallEvent::Load(_), Doing::Put(request)) => Some(
                Doing::PutAt(request, r.enqueue_pos),
            ),
            (CallEvent::Load(_), Doing::Get) => Some(Doing::GetAt(r.dequeue_pos)),
            (CallEvent::Look(_), Doing::PutAt(request, p)) => {
                let stamp = r.stamps[r.slot(p)];
                if stamp == 2 * p {
                    Some(Doing::PutReady(request, p))
                } else if stamp < 2 * p {
                    Some(Doing::Nothing)
                } else {
                    Some(Doing::Put(request))
                }
            },
            (CallEvent::Look(_), Doing::GetAt(p)) => {
                let stamp = r.stamps[r.slot(p)];
                if stamp == 2 * p + 1 {
                    Some(Doing::GetReady(p))
                } else if stamp < 2 * p + 1 {
                    Some(Doing::Nothing)
                } else {
                    Some(Doing::Get)
                }
            },
            (CallEvent::Swap(_), Doing::PutReady(request, p)) => if r.enqueue_pos == p {
                Some(Doing::Writing(request, p))
            } else {
                None
            },
            (CallEvent::Swap(_), Doing::GetReady(p)) => if r.dequeue_pos == p {
                Some(Doing::Reading(p))
            } else {
                None
            },
            (CallEvent::Miss(_), Doing::PutReady(request, p)) => Some(
                Doing::PutAt(request, r.enqueue_pos),
            ),
            (CallEvent::Miss(_), Doing::GetReady(p)) => Some(Doing::GetAt(r.dequeue_pos)),
            (CallEvent::Finish(_), Doing::Writing(_, _)) => Some(Doing::Nothing),
            (CallEvent::Finish(_), Doing::Reading(_)) => Some(Doing::Nothing),
            _ => None,
        }
    }

    /// The step of the ring that an action is, if it touches the ring.
    pub open spec fn ring_step(self, event: CallEvent) -> Option<RingStep> {
        match (event, self.threads[event.thread()]) {
            (CallEvent::Swap(_), Doing::PutReady(_, _)) => Some(RingStep::ClaimPut),
            (CallEvent::Swap(_), Doing::GetReady(_)) => Some(RingStep::ClaimGet),
            (CallEvent::Finish(_), Doing::Writing(request, p)) => Some(
                RingStep::Publish(p, request),
            ),
            (CallEvent::Finish(_), Doing::Reading(p)) => Some(RingStep::Free(p)),
            _ => None,
        }
    }

    /// Whether an action may turn all of it into `next`.
    pub open spec fn acts(self, event: CallEvent, next: Calls) -> bool {
        let t = event.thread();
        &&& self.threads.dom().contains(t)
        &&& self.doing_after(event) is Some
        &&& next.threads == self.threads.insert(t, self.doing_after(event)->Some_0)
        &&& next.ring == match self.ring_step(event) {
            Some(step) => self.ring.after(step),
            None => self.ring,
        }
        &&& next.accepted == match self.ring_step(event) {
            Some(RingStep::Publish(_, request)) => self.accepted.insert(request),
            _ => self.accepted,
        }
        &&& next.delivered == match self.ring_step(event) {
            Some(RingStep::Free(p)) => self.delivered.insert(
                self.ring.slots[self.ring.slot(p)],
            ),
            _ => self.delivered,
        }
    }

    /// Before any call.
    pub open spec fn begins(self, cap: nat) -> bool {
        &&& self.ring == SharedRing::start(cap)
        &&& self.idle()
        &&& self.accepted == Multiset::<RequestView>::empty()
        &&& self.delivered == Multiset::<RequestView>::empty()
    }

    /// Whether every call has returned.
    pub open spec fn idle(self) -> bool {
        forall|t: int| #[trigger]
            self.threads.dom().contains(t) ==> self.threads[t] is Nothing
    }
}

/// Whether `run` is what happens to a ring of `cap` slots and its threads, with
/// these actions, and `views` is the layout of the ring all along.
pub open spec fn calls_run(
    run: Seq<Calls>,
    events: Seq<CallEvent>,
    views: Seq<RingView>,
    cap: nat,
) -> bool {
    &&& run.len() == events.len() + 1
    &&& views.len() == events.len() + 1
    &&& run[0].begins(cap)
    &&& views[0] == RingView::fresh(cap)
    &&& views[0].shaped()
    &&& forall|k: int|
        0 <= k < events.len() ==> run[k].acts(#[trigger] events[k], run[k + 1]) && views[k + 1]
            == match run[k].ring_step(events[k]) {
            Some(step) => layout_after(views[k], step),
            None => views[k],
        }
}

/// The requests that were published at positions below `n` and not taken yet.
pub open spec fn held_below(
    put: Map<int, RequestView>,
    got: Map<int, RequestView>,
    n: int,
) -> Multiset<RequestView>
    decreases n,
{
    if n <= 0 {
        Multiset::empty()
    } else if put.dom().contains(n - 1) && !got.dom().contains(n - 1) {
        held_below(put, got, n - 1).insert(put[n - 1])
    } else {
        held_below(put, got, n - 1)
    }
}

/// The requests that were published in a ring and not taken yet.
pub open spec fn held(r: SharedRing) -> Multiset<RequestView> {
    held_below(r.put, r.got, r.enqueue_pos)
}

proof fn lemma_held_put(
    put: Map<int, RequestView>,
    got: Map<int, RequestView>,
    p: int,
    request: RequestView,
    n: int,
)
    requires
        0 <= p,
        !put.dom().contains(p),
        !got.dom().contains(p),
    ensures
        held_below(put.insert(p, request), got, n) == if p < n {
            held_below(put, got, n).insert(request)
        } else {
            held_below(put, got, n)
        },
    decreases n,
{
    if n > 0 {
        lemma_held_put(put, got, p, request, n - 1);
        if p < n - 1 && put.dom().contains(n - 1) && !got.dom().contains(n - 1) {
            let rest = held_below(put, got, n - 1);
            assert(rest.insert(request).insert(put[n - 1]) =~= rest.insert(put[n - 1]).insert(
                request,
            ));
        }
    }
}

proof fn lemma_held_got(
    put: Map<int, RequestView>,
    got: Map<int, RequestView>,
    p: int,
    request: RequestView,
    n: int,
)
    requires
        0 <= p,
        put.dom().contains(p),
        !got.dom().contains(p),
    ensures
        held_below(put, got, n) == if p < n {
            held_below(put, got.insert(p, request), n).insert(put[p])
        } else {
            held_below(put, got.insert(p, request), n)
        },
    decreases n,
{
    if n > 0 {
        lemma_held_got(put, got, p, request, n - 1);
        if p < n - 1 && put.dom().contains(n - 1) && !got.dom().contains(n - 1) {
            let rest = held_below(put, got.insert(p, request), n - 1);
            assert(rest.insert(put[p]).insert(put[n - 1]) =~= rest.insert(put[n - 1]).insert(
                put[p],
            ));
        }
    }
}

/// Once no thread is at work, what is held is what is queued.
proof fn lemma_held_is_queued(r: SharedRing, n: int)
    requires
        r.inv(),
        r.writing.is_empty(),
        r.reading.is_empty(),
        0 <= n <= r.enqueue_pos,
    ensures
        n <= r.dequeue_pos ==> held_below(r.put, r.got, n) == Multiset::<RequestView>::empty(),
        n >= r.dequeue_pos ==> held_below(r.put, r.got, n) == queued(r).take(
            n - r.dequeue_pos,
        ).to_multiset(),
    decreases n,
{
    broadcast use vstd::seq_lib::group_to_multiset_ensures;

    let d = r.dequeue_pos;
    if n > 0 {
        lemma_held_is_queued(r, n - 1);
        assert(!r.writing.contains(n - 1));
        assert(!r.reading.contains(n - 1));
        assert(r.put.dom().contains(n - 1));
        assert(r.got.dom().contains(n - 1) <==> n - 1 < d);
    }
    if n <= d {
        assert(queued(r).take(0) =~= Seq::empty());
        assert(Seq::<RequestView>::empty().to_multiset() =~= Multiset::empty());
    } else {
        assert(queued(r).take(n - d) =~= queued(r).take(n - 1 - d).push(r.put[n - 1]));
    }
}

/// Whether a thread knows what it should.
pub open spec fn doing_ok(r: SharedRing, doing: Doing) -> bool {
    match doing {
        Doing::PutAt(_, p) => 0 <= p <= r.enqueue_pos,
        Doing::PutReady(_, p) => 0 <= p <= r.enqueue_pos && (p == r.enqueue_pos
            ==> r.stamps[r.slot(p)] == 2 * p),
        Doing::Writing(_, p) => r.writing.contains(p),
        Doing::GetAt(p) => 0 <= p <= r.dequeue_pos,
        Doing::GetReady(p) => 0 <= p <= r.dequeue_pos && (p == r.dequeue_pos
            ==> r.stamps[r.slot(p)] == 2 * p + 1),
        Doing::Reading(p) => r.reading.contains(p),
        _ => true,
    }
}

/// Whether a thread has claimed position `p` for writing.
pub open spec fn writes_at(doing: Doing, p: int) -> bool {
    doing matches Doing::Writing(_, q) && q == p
}

/// Whether a thread has claimed position `p` for reading.
pub open spec fn reads_at(doing: Doing, p: int) -> bool {
    doing matches Doing::Reading(q) && q == p
}

impl Calls {
    /// Whether thread `t` is about something that goes with all the rest.
    pub open spec fn thread_ok(self, t: int) -> bool {
        &&& doing_ok(self.ring, self.threads[t])
        &&& forall|u: int, p: int| #[trigger]
            self.threads.dom().contains(u) && u != t && #[trigger] writes_at(self.threads[t], p)
                ==> !writes_at(self.threads[u], p)
        &&& forall|u: int, p: int| #[trigger]
            self.threads.dom().contains(u) && u != t && #[trigger] reads_at(self.threads[t], p)
                ==> !reads_at(self.threads[u], p)
    }

    /// Whether some thread has claimed position `p` for writing.
    pub open spec fn has_writer(self, p: int) -> bool {
        exists|t: int| #[trigger] self.threads.dom().contains(t) && writes_at(self.threads[t], p)
    }

    /// Whether some thread has claimed position `p` for reading.
    pub open spec fn has_reader(self, p: int) -> bool {
        exists|t: int| #[trigger] self.threads.dom().contains(t) && reads_at(self.threads[t], p)
    }

    /// What every moment has in common: each claimed position is that of one
    /// thread, and what went in is what came out and what is held.
    pub open spec fn ok(self) -> bool {
        &&& self.ring.inv()
        &&& forall|t: int| #[trigger] self.threads.dom().contains(t) ==> self.thread_ok(t)
        &&& forall|p: int| #[trigger] self.ring.writing.contains(p) ==> self.has_writer(p)
        &&& forall|p: int| #[trigger] self.ring.reading.contains(p) ==> self.has_reader(p)
        &&& self.accepted == self.delivered.add(held(self.ring))
    }
}

/// A position that was claimed and not freed is one of the last `cap`.
proof fn lemma_claimed_is_recent(r: SharedRing, p: int)
    requires
        r.inv(),
        r.writing.contains(p) || r.reading.contains(p),
    ensures
        0 <= p,
        r.enqueue_pos - r.cap <= p < r.enqueue_pos,
        !r.got.dom().contains(p),
{
    assert(!r.got.dom().contains(p));
    if p < r.enqueue_pos - r.cap {
        assert(r.got.dom().contains(p));
    }
}

/// Work on another slot does not take away a slot that was found free.
proof fn lemma_free_slot_stays(r: SharedRing, q: int)
    requires
        r.inv(),
        r.stamps[r.slot(r.enqueue_pos)] == 2 * r.enqueue_pos,
        r.writing.contains(q) || r.reading.contains(q),
    ensures
        r.slot(q) != r.slot(r.enqueue_pos),
{
    let p = r.enqueue_pos;
    lemma_claimed_is_recent(r, q);
    lemma_lap(p, r.cap);
    assert(r.slot_ok(p - r.cap));
    if r.slot(q) == r.slot(p) {
        lemma_same_slot(q, p - r.cap, r.cap);
    }
}

/// Work on another slot does not take away a request that was found published.
proof fn lemma_published_slot_stays(r: SharedRing, q: int)
    requires
        r.inv(),
        r.stamps[r.slot(r.dequeue_pos)] == 2 * r.dequeue_pos + 1,
        r.writing.contains(q) || r.reading.contains(q),
    ensures
        r.slot(q) != r.slot(r.dequeue_pos),
{
    let p = r.dequeue_pos;
    lemma_claimed_is_recent(r, q);
    assert(!r.got.dom().contains(p));
    if p < r.enqueue_pos - r.cap {
        assert(r.got.dom().contains(p));
    }
    if p == r.enqueue_pos {
        lemma_lap(p, r.cap);
        assert(r.slot_ok(p - r.cap));
    } else {
        assert(r.slot_ok(p));
    }
    if r.slot(q) == r.slot(p) {
        lemma_same_slot(q, p, r.cap);
    }
}

/// A step of one thread leaves what another knows as it was.
proof fn lemma_other_doing(r: SharedRing, step: RingStep, doing: Doing)
    requires
        r.inv(),
        r.can(step),
        doing_ok(r, doing),
        step matches RingStep::Publish(p, _) ==> !writes_at(doing, p),
        step matches RingStep::Free(p) ==> !reads_at(doing, p),
    ensures
        doing_ok(r.after(step), doing),
{
    let q = match step {
        RingStep::Publish(p, _) => Some(p),
        RingStep::Free(p) => Some(p),
        _ => None,
    };
    if q is Some {
        if doing matches Doing::PutReady(_, p) && p == r.enqueue_pos {
            lemma_free_slot_stays(r, q->Some_0);
        }
        if doing matches Doing::GetReady(p) && p == r.dequeue_pos {
            lemma_published_slot_stays(r, q->Some_0);
        }
    }
}

/// A thread takes a step of the ring only when it may, and knows what it should
/// afterwards.
proof fn lemma_own_doing(a: Calls, event: CallEvent, b: Calls)
    requires
        a.ok(),
        a.acts(event, b),
    ensures
        a.ring_step(event) matches Some(step) ==> a.ring.can(step),
        doing_ok(b.ring, b.threads[event.thread()]),
        b.ring.inv(),
{
    let t = event.thread();
    assert(a.thread_ok(t));
    if a.ring_step(event) is Some {
        lemma_step_keeps_inv(a.ring, a.ring_step(event)->Some_0, b.ring);
    }
}

/// Each claimed position is still that of one thread after an action.
proof fn lemma_claims_kept(a: Calls, event: CallEvent, b: Calls)
    requires
        a.ok(),
        a.acts(event, b),
    ensures
        forall|t: int| #[trigger] b.threads.dom().contains(t) ==> b.thread_ok(t),
        forall|p: int| #[trigger] b.ring.writing.contains(p) ==> b.has_writer(p),
        forall|p: int| #[trigger] b.ring.reading.contains(p) ==> b.has_reader(p),
{
    let t = event.thread();
    lemma_own_doing(a, event, b);
    assert(a.thread_ok(t));
    assert forall|u: int| #[trigger] b.threads.dom().contains(u) && u != t implies doing_ok(
        b.ring,
        b.threads[u],
    ) && b.threads[u] == a.threads[u] && a.thread_ok(u) by {
        assert(a.threads.dom().contains(u));
        if a.ring_step(event) is Some {
            let step = a.ring_step(event)->Some_0;
            match step {
                RingStep::Publish(p, _) => assert(writes_at(a.threads[t], p)),
                RingStep::Free(p) => assert(reads_at(a.threads[t], p)),
                _ => {},
            }
            lemma_other_doing(a.ring, step, a.threads[u]);
        }
    }
    assert forall|u: int, p: int|
        b.threads.dom().contains(u) && u != t && writes_at(b.threads[t], p) implies !writes_at(
        b.threads[u],
        p,
    ) by {
        assert(doing_ok(a.ring, a.threads[u]));
    }
    assert forall|u: int, p: int|
        b.threads.dom().contains(u) && u != t && reads_at(b.threads[t], p) implies !reads_at(
        b.threads[u],
        p,
    ) by {
        assert(doing_ok(a.ring, a.threads[u]));
    }
    assert forall|u: int| #[trigger] b.threads.dom().contains(u) implies b.thread_ok(u) by {
        if u != t {
            assert(a.thread_ok(u));
        }
    }
    assert forall|p: int| #[trigger] b.ring.writing.contains(p) implies b.has_writer(p) by {
        if a.ring.writing.contains(p) {
            assert(a.has_writer(p));
            let u = choose|u: int| #[trigger]
                a.threads.dom().contains(u) && writes_at(a.threads[u], p);
            assert(b.threads.dom().contains(u));
            assert(u != t);
        } else {
            assert(b.threads.dom().contains(t) && writes_at(b.threads[t], p));
        }
    }
    assert forall|p: int| #[trigger] b.ring.reading.contains(p) implies b.has_reader(p) by {
        if a.ring.reading.contains(p) {
            assert(a.has_reader(p));
            let u = choose|u: int| #[trigger]
                a.threads.dom().contains(u) && reads_at(a.threads[u], p);
            assert(b.threads.dom().contains(u));
            assert(u != t);
        } else {
            assert(b.threads.dom().contains(t) && reads_at(b.threads[t], p));
        }
    }
}

/// What went in is still what came out and what is held after an action.
proof fn lemma_balance_kept(a: Calls, event: CallEvent, b: Calls)
    requires
        a.ok(),
        a.acts(event, b),
    ensures
        b.accepted == b.delivered.add(held(b.ring)),
{
    lemma_own_doing(a, event, b);
    let r = a.ring;
    if a.ring_step(event) is Some {
        let step = a.ring_step(event)->Some_0;
        lemma_step_keeps_inv(r, step, b.ring);
        match step {
            RingStep::Publish(p, request) => {
                lemma_held_put(r.put, r.got, p, request, r.enqueue_pos);
                assert(b.accepted =~= b.delivered.add(held(b.ring)));
            },
            RingStep::Free(p) => {
                lemma_held_got(r.put, r.got, p, r.slots[r.slot(p)], r.enqueue_pos);
                assert(b.accepted =~= b.delivered.add(held(b.ring)));
            },
            RingStep::ClaimPut => {
                assert(!r.put.dom().contains(r.enqueue_pos));
            },
            RingStep::ClaimGet => {},
        }
    }
}

proof fn lemma_calls_ok(
    run: Seq<Calls>,
    events: Seq<CallEvent>,
    views: Seq<RingView>,
    cap: nat,
    k: int,
)
    requires
        calls_run(run, events, views, cap),
        0 <= k <= events.len(),
    ensures
        run[k].ok(),
        shows(views[k], run[k].ring),
    decreases k,
{
    if k == 0 {
        law_new_ring_is_fresh(cap);
        lemma_fresh_ring(run[0].ring);
        assert(held(run[0].ring) =~= Multiset::empty());
        assert(run[0].accepted =~= run[0].delivered.add(held(run[0].ring)));
    } else {
        lemma_calls_ok(run, events, views, cap, k - 1);
        let a = run[k - 1];
        let b = run[k];
        let event = events[k - 1];
        assert(run[k - 1].acts(events[k - 1], run[k - 1 + 1]));
        assert(views[k - 1 + 1] == match run[k - 1].ring_step(events[k - 1]) {
            Some(step) => layout_after(views[k - 1], step),
            None => views[k - 1],
        });
        lemma_own_doing(a, event, b);
        lemma_claims_kept(a, event, b);
        lemma_balance_kept(a, event, b);
        if a.ring_step(event) is Some {
            law_layout_follows_the_protocol(views[k - 1], a.ring, a.ring_step(event)->Some_0);
        }
    }
}

/// Whatever the threads do, at every moment the requests that were accepted are
/// those that were delivered and those that are still in the ring, each as often.
pub proof fn law_calls_lose_and_repeat_nothing(
    run: Seq<Calls>,
    events: Seq<CallEvent>,
    views: Seq<RingView>,
    cap: nat,
    k: int,
)
    requires
        calls_run(run, events, views, cap),
        0 <= k <= events.len(),
    ensures
        shows(views[k], run[k].ring),
        run[k].accepted == run[k].delivered.add(held(run[k].ring)),
{
    lemma_calls_ok(run, events, views, cap, k);
}

/// Once any number of threads have called for requests to be put into a ring and
/// taken out of it, and all those calls have returned, the requests that were
/// accepted are exactly those that were delivered and those that the ring still
/// holds, each as often and with its fields intact; and the ring is in order.
pub proof fn law_returned_calls_balance(
    run: Seq<Calls>,
    events: Seq<CallEvent>,
    views: Seq<RingView>,
    cap: nat,
    k: int,
)
    requires
        calls_run(run, events, views, cap),
        0 <= k <= events.len(),
        run[k].idle(),
    ensures
        views[k].ok(),
        run[k].accepted == run[k].delivered.add(views[k].contents().to_multiset()),
{
    lemma_calls_ok(run, events, views, cap, k);
    let r = run[k].ring;
    assert forall|p: int| !r.writing.contains(p) by {
        if r.writing.contains(p) {
            assert(run[k].has_writer(p));
        }
    }
    assert forall|p: int| !r.reading.contains(p) by {
        if r.reading.contains(p) {
            assert(run[k].has_reader(p));
        }
    }
    assert(r.writing =~= Set::empty());
    assert(r.reading =~= Set::empty());
    law_quiet_ring_is_in_order(views[k], r);
    lemma_held_is_queued(r, r.enqueue_pos);
    assert(queued(r).take(r.enqueue_pos - r.dequeue_pos) =~= queued(r));
}

} // verus!
