//! The stamp protocol of the ring under many threads.
//!
//! A producer claims the next position, if its slot is stamped as free for it,
//! then writes its request and stamps the slot as published. A consumer claims
//! the next position to be taken, if its slot is stamped as published, then
//! takes the request and stamps the slot as free for the next lap. Each of the
//! four is one atomic step, and the steps of all threads interleave at will.
//! Positions are taken as unbounded here; [`shows`] relates them to the positions
//! and stamps of 64 bits that a [`crate::ring::RingBuffer`] has, whose steps of
//! the same names are those of the protocol. What calls make of these steps is in
//! [`crate::calls`].

use crate::domain::RequestView;
use crate::ring::{lemma_wrapped_slot, slot_of, turn, wrapped, RingView, Turn, MAX_CAPACITY};
use vstd::prelude::*;

verus! {

/// The ring as all threads see it, with its history.
#[verifier::ext_equal]
pub struct SharedRing {
    /// Number of slots.
    pub cap: int,
    /// The next position to be claimed by a producer.
    pub enqueue_pos: int,
    /// The next position to be claimed by a consumer.
    pub dequeue_pos: int,
    /// The stamp of every slot.
    pub stamps: Map<int, int>,
    /// The request in every slot.
    pub slots: Map<int, RequestView>,
    /// Positions that a producer has claimed and not published yet.
    pub writing: Set<int>,
    /// Positions that a consumer has claimed and not freed yet.
    pub reading: Set<int>,
    /// What was published, by position.
    pub put: Map<int, RequestView>,
    /// What was taken, by position.
    pub got: Map<int, RequestView>,
}

/// One atomic step of some thread.
pub enum RingStep {
    /// A producer claims the next position.
    ClaimPut,
    /// The producer of a position publishes its request.
    Publish(int, RequestView),
    /// A consumer claims the next position.
    ClaimGet,
    /// The consumer of a position takes its request and frees the slot.
    Free(int),
}

impl SharedRing {
    /// The slot of a position.
    pub open spec fn slot(self, p: int) -> int {
        p % self.cap
    }

    /// A ring before any thread has come: every slot is free for the first lap.
    pub open spec fn fresh(self) -> bool {
        &&& self.cap > 0
        &&& self.enqueue_pos == 0
        &&& self.dequeue_pos == 0
        &&& forall|s: int| 0 <= s < self.cap ==> #[trigger] self.stamps[s] == 2 * s
        &&& self.writing.is_empty()
        &&& self.reading.is_empty()
        &&& self.put.dom().is_empty()
        &&& self.got.dom().is_empty()
    }

    /// A fresh ring of `cap` slots.
    pub open spec fn start(cap: nat) -> SharedRing {
        SharedRing {
            cap: cap as int,
            enqueue_pos: 0,
            dequeue_pos: 0,
            stamps: Map::new(|s: int| 0 <= s < cap, |s: int| 2 * s),
            slots: Map::empty(),
            writing: Set::empty(),
            reading: Set::empty(),
            put: Map::empty(),
            got: Map::empty(),
        }
    }

    /// Whether some thread may take `step`.
    pub open spec fn can(self, step: RingStep) -> bool {
        match step {
            RingStep::ClaimPut => {
                self.stamps[self.slot(self.enqueue_pos)] == 2 * self.enqueue_pos
            },
            RingStep::Publish(p, request) => self.writing.contains(p),
            RingStep::ClaimGet => {
                self.stamps[self.slot(self.dequeue_pos)] == 2 * self.dequeue_pos + 1
            },
            RingStep::Free(p) => self.reading.contains(p),
        }
    }

    /// The ring after `step`.
    pub open spec fn after(self, step: RingStep) -> SharedRing {
        match step {
            RingStep::ClaimPut => SharedRing {
                enqueue_pos: self.enqueue_pos + 1,
                writing: self.writing.insert(self.enqueue_pos),
                ..self
            },
            RingStep::Publish(p, request) => SharedRing {
                slots: self.slots.insert(self.slot(p), request),
                stamps: self.stamps.insert(self.slot(p), 2 * p + 1),
                writing: self.writing.remove(p),
                put: self.put.insert(p, request),
                ..self
            },
            RingStep::ClaimGet => SharedRing {
                dequeue_pos: self.dequeue_pos + 1,
                reading: self.reading.insert(self.dequeue_pos),
                ..self
            },
            RingStep::Free(p) => SharedRing {
                stamps: self.stamps.insert(self.slot(p), 2 * (p + self.cap)),
                reading: self.reading.remove(p),
                got: self.got.insert(p, self.slots[self.slot(p)]),
                ..self
            },
        }
    }

    /// Whether `step` may turn the ring into `next`.
    pub open spec fn steps(self, step: RingStep, next: SharedRing) -> bool {
        self.can(step) && next == self.after(step)
    }

    /// Whether the slot of position `p`, one of the last `cap` that were claimed
    /// by producers, is as it must be: free for the next lap once the request
    /// was taken, held by its producer, or published.
    pub open spec fn slot_ok(self, p: int) -> bool {
        let stamp = self.stamps[self.slot(p)];
        if p < 0 || self.got.dom().contains(p) {
            stamp == 2 * (p + self.cap)
        } else if self.writing.contains(p) {
            stamp == 2 * p
        } else {
            stamp == 2 * p + 1 && self.slots[self.slot(p)] == self.put[p]
        }
    }

    /// What every reachable ring has in common.
    pub open spec fn inv(self) -> bool {
        &&& self.cap > 0
        &&& 0 <= self.dequeue_pos <= self.enqueue_pos
        &&& forall|p: int| #[trigger]
            self.writing.contains(p) ==> self.dequeue_pos <= p < self.enqueue_pos
        &&& forall|p: int| #[trigger]
            self.put.dom().contains(p) <==> 0 <= p < self.enqueue_pos && !self.writing.contains(p)
        &&& forall|p: int| #[trigger]
            self.got.dom().contains(p) <==> 0 <= p < self.dequeue_pos && !self.reading.contains(p)
        &&& forall|p: int| #[trigger] self.reading.contains(p) ==> 0 <= p < self.dequeue_pos
        &&& forall|p: int| #[trigger]
            self.got.dom().contains(p) ==> self.got[p] == self.put[p]
        &&& forall|p: int|
            0 <= p < self.enqueue_pos - self.cap ==> #[trigger] self.got.dom().contains(p)
        &&& forall|p: int|
            self.enqueue_pos - self.cap <= p < self.enqueue_pos ==> #[trigger] self.slot_ok(p)
    }
}

/// Whether `run` is a run of the ring with these steps, from a fresh ring on.
pub open spec fn ring_run(run: Seq<SharedRing>, steps: Seq<RingStep>) -> bool {
    &&& run.len() == steps.len() + 1
    &&& run[0].fresh()
    &&& forall|k: int| 0 <= k < steps.len() ==> run[k].steps(#[trigger] steps[k], run[k + 1])
}

/// Two of the last `cap` positions share a slot only if they are the same.
pub proof fn lemma_same_slot(p: int, q: int, cap: int)
    requires
        cap > 0,
        -cap < p - q < cap,
        p % cap == q % cap,
    ensures
        p == q,
{
    vstd::arithmetic::div_mod::lemma_mod_equivalence(p, q, cap);
    if p > q {
        vstd::arithmetic::div_mod::lemma_small_mod((p - q) as nat, cap as nat);
    } else if p < q {
        vstd::arithmetic::div_mod::lemma_mod_equivalence(q, p, cap);
        vstd::arithmetic::div_mod::lemma_small_mod((q - p) as nat, cap as nat);
    }
}

pub proof fn lemma_lap(p: int, cap: int)
    requires
        cap > 0,
    ensures
        (p - cap) % cap == p % cap,
{
    vstd::arithmetic::div_mod::lemma_mod_add_multiples_vanish(p - cap, cap);
}

pub proof fn lemma_fresh_ring(r: SharedRing)
    requires
        r.fresh(),
    ensures
        r.inv(),
{
    assert forall|p: int| r.enqueue_pos - r.cap <= p < r.enqueue_pos implies #[trigger] r.slot_ok(
        p,
    ) by {
        lemma_lap(p + r.cap, r.cap);
        vstd::arithmetic::div_mod::lemma_small_mod((p + r.cap) as nat, r.cap as nat);
        assert(r.slot(p) == p + r.cap);
        assert(r.stamps[p + r.cap] == 2 * (p + r.cap));
    }
}

proof fn lemma_claim_put(a: SharedRing, b: SharedRing)
    requires
        a.inv(),
        a.steps(RingStep::ClaimPut, b),
    ensures
        b.inv(),
{
    let p = a.enqueue_pos;
    lemma_lap(p, a.cap);
    assert(a.slot_ok(p - a.cap));
    assert forall|q: int| b.enqueue_pos - b.cap <= q < b.enqueue_pos implies #[trigger] b.slot_ok(
        q,
    ) by {
        if q < p {
            assert(a.slot_ok(q));
        }
    }
    assert forall|q: int| 0 <= q < b.enqueue_pos - b.cap implies #[trigger]
    b.got.dom().contains(q) by {
        assert(q < p - a.cap || q == p - a.cap);
    }
}

proof fn lemma_publish(a: SharedRing, p: int, request: RequestView, b: SharedRing)
    requires
        a.inv(),
        a.steps(RingStep::Publish(p, request), b),
    ensures
        b.inv(),
{
    assert(p >= a.enqueue_pos - a.cap) by {
        if p < a.enqueue_pos - a.cap {
            assert(a.got.dom().contains(p));
        }
    }
    assert forall|q: int| b.enqueue_pos - b.cap <= q < b.enqueue_pos implies #[trigger] b.slot_ok(
        q,
    ) by {
        assert(a.slot_ok(q));
        if q != p && a.slot(q) == a.slot(p) {
            lemma_same_slot(q, p, a.cap);
        }
    }
}

proof fn lemma_claim_get(a: SharedRing, b: SharedRing)
    requires
        a.inv(),
        a.steps(RingStep::ClaimGet, b),
    ensures
        b.inv(),
{
    let p = a.dequeue_pos;
    assert(p >= a.enqueue_pos - a.cap) by {
        if p < a.enqueue_pos - a.cap {
            assert(a.got.dom().contains(p));
        }
    }
    if p == a.enqueue_pos {
        lemma_lap(p, a.cap);
        assert(a.slot_ok(p - a.cap));
        assert(false);
    }
    assert(a.slot_ok(p));
    assert(!a.got.dom().contains(p));
    assert forall|q: int| b.enqueue_pos - b.cap <= q < b.enqueue_pos implies #[trigger] b.slot_ok(
        q,
    ) by {
        assert(a.slot_ok(q));
    }
}

proof fn lemma_free(a: SharedRing, p: int, b: SharedRing)
    requires
        a.inv(),
        a.steps(RingStep::Free(p), b),
    ensures
        b.inv(),
{
    assert(p >= a.enqueue_pos - a.cap) by {
        if p < a.enqueue_pos - a.cap {
            assert(a.got.dom().contains(p));
        }
    }
    assert(a.slot_ok(p));
    assert(!a.got.dom().contains(p));
    assert(!a.writing.contains(p));
    assert forall|q: int| b.enqueue_pos - b.cap <= q < b.enqueue_pos implies #[trigger] b.slot_ok(
        q,
    ) by {
        assert(a.slot_ok(q));
        if q != p && a.slot(q) == a.slot(p) {
            lemma_same_slot(q, p, a.cap);
        }
    }
}

/// Every step keeps what reachable rings have in common, and no position is
/// published or taken twice.
pub proof fn lemma_step_keeps_inv(a: SharedRing, step: RingStep, b: SharedRing)
    requires
        a.inv(),
        a.steps(step, b),
    ensures
        b.inv(),
        step matches RingStep::Publish(p, _) ==> !a.put.dom().contains(p)
            && !a.got.dom().contains(p) && 0 <= p < a.enqueue_pos,
        step matches RingStep::Free(p) ==> a.put.dom().contains(p) && !a.got.dom().contains(p)
            && a.slots[a.slot(p)] == a.put[p] && 0 <= p < a.enqueue_pos,
{
    match step {
        RingStep::ClaimPut => lemma_claim_put(a, b),
        RingStep::Publish(p, request) => {
            lemma_publish(a, p, request, b);
            assert(!a.put.dom().contains(p));
            assert(!a.got.dom().contains(p));
        },
        RingStep::ClaimGet => lemma_claim_get(a, b),
        RingStep::Free(p) => {
            lemma_free(a, p, b);
            assert(!a.got.dom().contains(p));
            assert(!a.writing.contains(p));
            assert(a.put.dom().contains(p));
            assert(a.slot_ok(p)) by {
                if p < a.enqueue_pos - a.cap {
                    assert(a.got.dom().contains(p));
                }
            }
        },
    }
}

/// Under every interleaving of any number of producers and consumers, what is
/// taken at a position is what was published there: nothing is made up, nothing
/// is delivered twice, and nothing is overwritten before it is taken.
pub proof fn law_ring_delivers_each_request_once(
    run: Seq<SharedRing>,
    steps: Seq<RingStep>,
    k: int,
)
    requires
        ring_run(run, steps),
        0 <= k <= steps.len(),
    ensures
        run[k].inv(),
        forall|p: int| #[trigger]
            run[k].got.dom().contains(p) ==> run[k].put.dom().contains(p) && run[k].got[p]
                == run[k].put[p],
        k > 0 ==> (steps[k - 1] matches RingStep::Publish(p, _) ==> !run[k - 1].put.dom().contains(
            p,
        )),
        k > 0 ==> (steps[k - 1] matches RingStep::Free(p) ==> !run[k - 1].got.dom().contains(p)),
    decreases k,
{
    if k == 0 {
        lemma_fresh_ring(run[0]);
    } else {
        law_ring_delivers_each_request_once(run, steps, k - 1);
        assert(run[k - 1].steps(steps[k - 1], run[k - 1 + 1]));
        lemma_step_keeps_inv(run[k - 1], steps[k - 1], run[k]);
    }
}

/// Once every claimed position is published and taken, nothing is missing.
pub proof fn law_quiet_ring_has_lost_nothing(run: Seq<SharedRing>, steps: Seq<RingStep>)
    requires
        ring_run(run, steps),
        run.last().dequeue_pos == run.last().enqueue_pos,
        run.last().reading.is_empty(),
    ensures
        run.last().got == run.last().put,
{
    law_ring_delivers_each_request_once(run, steps, steps.len() as int);
    let r = run.last();
    assert forall|p: int| r.got.dom().contains(p) == r.put.dom().contains(p) by {
        assert(!r.reading.contains(p));
        if r.writing.contains(p) {
            assert(r.dequeue_pos <= p < r.enqueue_pos);
        }
    }
    assert(r.got.dom() =~= r.put.dom());
    assert(r.got =~= r.put);
}

/// A producer is refused only by a full ring: when the slot of the next position
/// is not free for it, the request of one lap earlier is still there, so that as
/// many positions as there are slots are claimed and not freed.
pub proof fn law_refused_producer_found_the_ring_full(
    run: Seq<SharedRing>,
    steps: Seq<RingStep>,
)
    requires
        ring_run(run, steps),
        ({
            let r = run.last();
            r.stamps[r.slot(r.enqueue_pos)] != 2 * r.enqueue_pos
        }),
    ensures
        ({
            let r = run.last();
            let p = r.enqueue_pos - r.cap;
            p >= 0 && !r.got.dom().contains(p)
        }),
{
    law_ring_delivers_each_request_once(run, steps, steps.len() as int);
    let r = run.last();
    lemma_lap(r.enqueue_pos, r.cap);
    assert(r.slot_ok(r.enqueue_pos - r.cap));
}

/// A consumer is refused only when nothing is there for it: when the slot of the
/// next position is not stamped as published, nothing was published there yet.
pub proof fn law_refused_consumer_found_nothing(run: Seq<SharedRing>, steps: Seq<RingStep>)
    requires
        ring_run(run, steps),
        ({
            let r = run.last();
            r.stamps[r.slot(r.dequeue_pos)] != 2 * r.dequeue_pos + 1
        }),
    ensures
        !run.last().put.dom().contains(run.last().dequeue_pos),
{
    law_ring_delivers_each_request_once(run, steps, steps.len() as int);
    let r = run.last();
    let p = r.dequeue_pos;
    if r.put.dom().contains(p) {
        assert(p >= r.enqueue_pos - r.cap) by {
            if p < r.enqueue_pos - r.cap {
                assert(r.got.dom().contains(p));
            }
        }
        assert(r.slot_ok(p));
        assert(!r.got.dom().contains(p));
    }
}

/// Stamps and positions of 64 bits, which wrap around, decide as the unbounded
/// ones do: at the next position a producer or a consumer finds its turn exactly
/// when the slot is stamped for it, and is told to stay behind otherwise.
pub proof fn law_wrapped_stamps_decide_alike(run: Seq<SharedRing>, steps: Seq<RingStep>)
    requires
        ring_run(run, steps),
        run.last().cap <= MAX_CAPACITY,
    ensures
        ({
            let r = run.last();
            let p = r.enqueue_pos;
            let stamp = r.stamps[r.slot(p)];
            turn(wrapped(stamp), wrapped(2 * wrapped(p))) == if stamp == 2 * p {
                Turn::Mine
            } else {
                Turn::Behind
            }
        }),
        ({
            let r = run.last();
            let p = r.dequeue_pos;
            let stamp = r.stamps[r.slot(p)];
            turn(wrapped(stamp), wrapped(2 * wrapped(p) + 1)) == if stamp == 2 * p + 1 {
                Turn::Mine
            } else {
                Turn::Behind
            }
        }),
{
    law_ring_delivers_each_request_once(run, steps, steps.len() as int);
    let r = run.last();
    lemma_stamps_in_reach(r);
    lemma_near_stamps(r.stamps[r.slot(r.enqueue_pos)], 2 * r.enqueue_pos);
    lemma_near_stamps(r.stamps[r.slot(r.dequeue_pos)], 2 * r.dequeue_pos + 1);
    lemma_doubled(r.enqueue_pos);
    lemma_doubled(r.dequeue_pos);
}

/// The same holds of an older position that a thread still holds, as long as the
/// ring has not gone so far beyond it that 64 bits cannot tell: the thread finds
/// its turn, or is told to stay behind or to look again, exactly as the unbounded
/// stamps say.
pub proof fn law_wrapped_stamps_decide_alike_for_held_positions(
    run: Seq<SharedRing>,
    steps: Seq<RingStep>,
    p: int,
)
    requires
        ring_run(run, steps),
        0 <= p <= run.last().enqueue_pos,
        2 * (run.last().enqueue_pos - p + run.last().cap) <= 0x8000_0000_0000_0000,
    ensures
        ({
            let r = run.last();
            let stamp = r.stamps[r.slot(p)];
            &&& turn(wrapped(stamp), wrapped(2 * wrapped(p))) == signed_turn(stamp, 2 * p)
            &&& p <= r.dequeue_pos ==> turn(wrapped(stamp), wrapped(2 * wrapped(p) + 1))
                == signed_turn(stamp, 2 * p + 1)
        }),
{
    law_ring_delivers_each_request_once(run, steps, steps.len() as int);
    let r = run.last();
    let stamp = r.stamps[r.slot(p)];
    lemma_held_stamp(r, p);
    lemma_doubled(p);
    lemma_stamps_apart(stamp, 2 * p);
    if p <= r.dequeue_pos {
        lemma_stamps_apart(stamp, 2 * p + 1);
    }
}

/// Compares unbounded stamps.
pub open spec fn signed_turn(stamp: int, wanted: int) -> Turn {
    if stamp == wanted {
        Turn::Mine
    } else if stamp < wanted {
        Turn::Behind
    } else {
        Turn::Ahead
    }
}

/// The stamp of a position's slot is at most a lap behind it, and no further ahead
/// than the ring has gone.
proof fn lemma_held_stamp(r: SharedRing, p: int)
    requires
        r.inv(),
        0 <= p <= r.enqueue_pos,
    ensures
        -2 * r.cap <= r.stamps[r.slot(p)] - 2 * p <= 2 * (r.enqueue_pos - p + r.cap) - 2,
        p <= r.dequeue_pos ==> -2 * r.cap + 1 <= r.stamps[r.slot(p)] - 2 * p,
{
    let e = r.enqueue_pos;
    let q = e - 1 - (e - 1 - p) % r.cap;
    vstd::arithmetic::div_mod::lemma_mod_bound(e - 1 - p, r.cap);
    assert(r.slot(q) == r.slot(p)) by {
        vstd::arithmetic::div_mod::lemma_fundamental_div_mod(e - 1 - p, r.cap);
        let laps = (e - 1 - p) / r.cap;
        assert(q == r.cap * laps + p);
        vstd::arithmetic::div_mod::lemma_mod_multiples_vanish(laps, p, r.cap);
    }
    assert(r.slot_ok(q));
    assert(q >= p - r.cap && (p < e ==> q >= p)) by {
        if p < e {
            vstd::arithmetic::div_mod::lemma_mod_decreases((e - 1 - p) as nat, r.cap as nat);
        }
    }
    if p == e && p <= r.dequeue_pos {
        assert(!r.writing.contains(q));
    }
}

/// Words tell stamps apart that are less than half of all words apart.
proof fn lemma_stamps_apart(stamp: int, wanted: int)
    requires
        -0x8000_0000_0000_0000 <= stamp - wanted < 0x8000_0000_0000_0000,
    ensures
        turn(wrapped(stamp), wrapped(wanted)) == signed_turn(stamp, wanted),
{
    lemma_word_of(stamp);
    lemma_word_of(wanted);
    let d = stamp - wanted;
    let words = stamp / 0x1_0000_0000_0000_0000 - wanted / 0x1_0000_0000_0000_0000;
    lemma_words_apart(d, wrapped(stamp) - wrapped(wanted), words);
    if d >= 0 {
        vstd::arithmetic::div_mod::lemma_small_mod(d as nat, 0x1_0000_0000_0000_0000);
    } else {
        lemma_words_apart(d + 0x1_0000_0000_0000_0000, d, 1);
        vstd::arithmetic::div_mod::lemma_small_mod(
            (d + 0x1_0000_0000_0000_0000) as nat,
            0x1_0000_0000_0000_0000,
        );
    }
    assert(wrapped(stamp) == wrapped(wanted) <==> d == 0);
}

/// The stamps at the next positions are at most a lap behind.
proof fn lemma_stamps_in_reach(r: SharedRing)
    requires
        r.inv(),
    ensures
        -2 * r.cap <= r.stamps[r.slot(r.enqueue_pos)] - 2 * r.enqueue_pos <= 0,
        -2 * r.cap <= r.stamps[r.slot(r.dequeue_pos)] - (2 * r.dequeue_pos + 1) <= 0,
{
    let p = r.enqueue_pos;
    let q = r.dequeue_pos;
    lemma_lap(p, r.cap);
    assert(r.slot_ok(p - r.cap));
    assert(q >= p - r.cap) by {
        if q < p - r.cap {
            assert(r.got.dom().contains(q));
        }
    }
    assert(!r.got.dom().contains(q));
    if q < p {
        assert(r.slot_ok(q));
    } else {
        assert(!r.writing.contains(q - r.cap));
    }
}

/// Numbers that are whole words apart are the same word.
proof fn lemma_words_apart(x: int, y: int, words: int)
    requires
        x == y + words * 0x1_0000_0000_0000_0000,
    ensures
        wrapped(x) == wrapped(y),
{
    vstd::arithmetic::div_mod::lemma_mod_multiples_vanish(words, y, 0x1_0000_0000_0000_0000);
}

/// A number is whole words away from its word.
proof fn lemma_word_of(p: int)
    ensures
        p == wrapped(p) + (p / 0x1_0000_0000_0000_0000) * 0x1_0000_0000_0000_0000,
{
    vstd::arithmetic::div_mod::lemma_fundamental_div_mod(p, 0x1_0000_0000_0000_0000);
}

proof fn lemma_doubled(p: int)
    ensures
        wrapped(2 * wrapped(p)) == wrapped(2 * p),
        wrapped(2 * wrapped(p) + 1) == wrapped(2 * p + 1),
{
    let words = p / 0x1_0000_0000_0000_0000;
    lemma_word_of(p);
    lemma_words_apart(2 * p, 2 * wrapped(p), 2 * words);
    lemma_words_apart(2 * p + 1, 2 * wrapped(p) + 1, 2 * words);
}

proof fn lemma_near_stamps(stamp: int, wanted: int)
    requires
        -0x8000_0000_0000_0000 <= stamp - wanted <= 0,
    ensures
        turn(wrapped(stamp), wrapped(wanted)) == if stamp == wanted {
            Turn::Mine
        } else {
            Turn::Behind
        },
{
}

/// The layout of a ring after `step`, with positions of 64 bits.
pub open spec fn layout_after(v: RingView, step: RingStep) -> RingView {
    match step {
        RingStep::ClaimPut => v.claimed_put(),
        RingStep::Publish(p, request) => v.published(wrapped(p), request),
        RingStep::ClaimGet => v.claimed_get(),
        RingStep::Free(p) => v.freed(wrapped(p)),
    }
}

/// Whether the slot of position `p` holds what it should: the request that was
/// published there and not taken yet, or nothing.
pub open spec fn slot_shown(v: RingView, r: SharedRing, p: int) -> bool {
    v.slots[r.slot(p)] == if r.put.dom().contains(p) && !r.got.dom().contains(p) {
        Some(r.put[p])
    } else {
        None
    }
}

/// Whether a [`crate::ring::RingBuffer`] of this layout is the ring `r`, with its
/// positions and stamps cut to 64 bits.
pub open spec fn shows(v: RingView, r: SharedRing) -> bool {
    &&& v.shaped()
    &&& v.cap() == r.cap
    &&& v.enqueue_pos == wrapped(r.enqueue_pos)
    &&& v.dequeue_pos == wrapped(r.dequeue_pos)
    &&& forall|s: int| 0 <= s < r.cap ==> #[trigger] v.stamps[s] == wrapped(r.stamps[s])
    &&& forall|p: int|
        r.enqueue_pos - r.cap <= p < r.enqueue_pos ==> #[trigger] slot_shown(v, r, p)
}

/// The slot of a position of 64 bits is that of the unbounded position.
proof fn lemma_slot_shown(v: RingView, r: SharedRing, p: int)
    requires
        v.shaped(),
        v.cap() == r.cap,
        0 <= p,
    ensures
        slot_of(wrapped(p) as int, v.cap()) == r.slot(p),
        0 <= r.slot(p) < r.cap,
{
    lemma_wrapped_slot(p, 0, v.cap());
    reveal(slot_of);
    vstd::arithmetic::div_mod::lemma_mod_bound(p, r.cap);
}

/// A new ring is a fresh one.
pub proof fn law_new_ring_is_fresh(cap: nat)
    requires
        RingView::fresh(cap).shaped(),
    ensures
        SharedRing::start(cap).fresh(),
        shows(RingView::fresh(cap), SharedRing::start(cap)),
{
    let v = RingView::fresh(cap);
    let r = SharedRing::start(cap);
    assert forall|p: int| r.enqueue_pos - r.cap <= p < r.enqueue_pos implies #[trigger] slot_shown(
        v,
        r,
        p,
    ) by {
        vstd::arithmetic::div_mod::lemma_mod_bound(p, r.cap);
    }
}

/// A ring lets a thread claim a position exactly when the protocol does, and a
/// claimed position holds what was published there.
pub proof fn law_layout_decides_alike(v: RingView, r: SharedRing)
    requires
        r.inv(),
        shows(v, r),
    ensures
        v.may_put() <==> r.can(RingStep::ClaimPut),
        v.may_get() <==> r.can(RingStep::ClaimGet),
        forall|p: int| #[trigger]
            r.reading.contains(p) ==> v.slots[slot_of(wrapped(p) as int, v.cap())] == Some(
                r.put[p],
            ),
{
    let p = r.enqueue_pos;
    let q = r.dequeue_pos;
    lemma_slot_shown(v, r, p);
    lemma_slot_shown(v, r, q);
    lemma_stamps_in_reach(r);
    lemma_doubled(p);
    lemma_doubled(q);
    lemma_near_stamps(r.stamps[r.slot(p)], 2 * p);
    lemma_near_stamps(r.stamps[r.slot(q)], 2 * q + 1);
    assert forall|p: int| #[trigger] r.reading.contains(p) implies v.slots[slot_of(
        wrapped(p) as int,
        v.cap(),
    )] == Some(r.put[p]) by {
        lemma_slot_shown(v, r, p);
        assert(!r.got.dom().contains(p));
        assert(!r.writing.contains(p));
        assert(r.put.dom().contains(p));
        assert(slot_shown(v, r, p)) by {
            if p < r.enqueue_pos - r.cap {
                assert(r.got.dom().contains(p));
            }
        }
    }
}

/// Every step of the protocol is the step of the same name on the ring.
pub proof fn law_layout_follows_the_protocol(v: RingView, r: SharedRing, step: RingStep)
    requires
        r.inv(),
        shows(v, r),
        r.can(step),
    ensures
        r.after(step).inv(),
        shows(layout_after(v, step), r.after(step)),
{
    let next = r.after(step);
    let after = layout_after(v, step);
    lemma_step_keeps_inv(r, step, next);
    match step {
        RingStep::ClaimPut => {
            let p = r.enqueue_pos;
            lemma_lap(p, r.cap);
            assert(r.slot_ok(p - r.cap));
            assert(slot_shown(v, r, p - r.cap));
            lemma_wrapped_next(p);
            assert forall|q: int|
                next.enqueue_pos - next.cap <= q < next.enqueue_pos implies #[trigger] slot_shown(
                after,
                next,
                q,
            ) by {
                if q < p {
                    assert(slot_shown(v, r, q));
                } else {
                    assert(!r.put.dom().contains(p));
                }
            }
        },
        RingStep::ClaimGet => {
            lemma_wrapped_next(r.dequeue_pos);
            assert forall|q: int|
                next.enqueue_pos - next.cap <= q < next.enqueue_pos implies #[trigger] slot_shown(
                after,
                next,
                q,
            ) by {
                assert(slot_shown(v, r, q));
            }
        },
        RingStep::Publish(p, request) => {
            lemma_slot_shown(v, r, p);
            lemma_doubled(p);
            assert(p >= r.enqueue_pos - r.cap) by {
                if p < r.enqueue_pos - r.cap {
                    assert(r.got.dom().contains(p));
                }
            }
            lemma_window_kept(v, r, after, next, p);
            assert(slot_shown(after, next, p));
        },
        RingStep::Free(p) => {
            lemma_slot_shown(v, r, p);
            lemma_freed_stamp(p, r.cap);
            assert(p >= r.enqueue_pos - r.cap) by {
                if p < r.enqueue_pos - r.cap {
                    assert(r.got.dom().contains(p));
                }
            }
            lemma_window_kept(v, r, after, next, p);
            assert(slot_shown(after, next, p));
        },
    }
}

/// Work on the slot of one position leaves the others as they are.
proof fn lemma_window_kept(v: RingView, r: SharedRing, after: RingView, next: SharedRing, p: int)
    requires
        r.cap > 0,
        shows(v, r),
        next.cap == r.cap,
        next.enqueue_pos == r.enqueue_pos,
        r.enqueue_pos - r.cap <= p < r.enqueue_pos,
        forall|q: int| q != p ==> #[trigger] next.put.dom().contains(q) == r.put.dom().contains(q),
        forall|q: int| q != p ==> #[trigger] next.got.dom().contains(q) == r.got.dom().contains(q),
        forall|q: int| q != p ==> #[trigger] next.put[q] == r.put[q],
        forall|s: int| 0 <= s < r.cap && s != r.slot(p) ==> after.slots[s] == #[trigger] v.slots[s],
    ensures
        forall|q: int|
            r.enqueue_pos - r.cap <= q < r.enqueue_pos && q != p ==> #[trigger] slot_shown(
                after,
                next,
                q,
            ),
{
    assert forall|q: int|
        r.enqueue_pos - r.cap <= q < r.enqueue_pos && q != p implies #[trigger] slot_shown(
        after,
        next,
        q,
    ) by {
        assert(slot_shown(v, r, q));
        vstd::arithmetic::div_mod::lemma_mod_bound(q, r.cap);
        if r.slot(q) == r.slot(p) {
            lemma_same_slot(q, p, r.cap);
        }
        assert(after.slots[r.slot(q)] == v.slots[r.slot(q)]);
        assert(next.put.dom().contains(q) == r.put.dom().contains(q));
        assert(next.got.dom().contains(q) == r.got.dom().contains(q));
        assert(next.put[q] == r.put[q]);
    }
}

proof fn lemma_wrapped_next(p: int)
    ensures
        wrapped(wrapped(p) + 1) == wrapped(p + 1),
{
    lemma_word_of(p);
    lemma_words_apart(p + 1, wrapped(p) + 1, p / 0x1_0000_0000_0000_0000);
}

proof fn lemma_freed_stamp(p: int, cap: int)
    ensures
        wrapped(2 * wrapped(wrapped(p) + cap)) == wrapped(2 * (p + cap)),
{
    lemma_word_of(p);
    lemma_words_apart(p + cap, wrapped(p) + cap, p / 0x1_0000_0000_0000_0000);
    lemma_doubled(p + cap);
}

/// A request that is put into a ring is claimed and then published: what
/// [`crate::ring::RingBuffer::try_enqueue`] does at one stroke are two steps of
/// the protocol, whatever positions other threads hold at that moment.
pub proof fn law_enqueue_is_claim_and_publish(v: RingView, r: SharedRing, request: RequestView)
    requires
        r.inv(),
        shows(v, r),
        v.may_put(),
    ensures
        ({
            let mid = r.after(RingStep::ClaimPut);
            let step = RingStep::Publish(r.enqueue_pos, request);
            &&& r.steps(RingStep::ClaimPut, mid)
            &&& mid.steps(step, mid.after(step))
            &&& mid.after(step).inv()
            &&& shows(v.put(request), mid.after(step))
        }),
{
    law_layout_decides_alike(v, r);
    law_layout_follows_the_protocol(v, r, RingStep::ClaimPut);
    law_layout_follows_the_protocol(
        v.claimed_put(),
        r.after(RingStep::ClaimPut),
        RingStep::Publish(r.enqueue_pos, request),
    );
}

/// A request that is taken out of a ring is claimed and then freed: what
/// [`crate::ring::RingBuffer::try_dequeue`] does at one stroke are two steps of
/// the protocol, whatever positions other threads hold at that moment.
pub proof fn law_dequeue_is_claim_and_free(v: RingView, r: SharedRing)
    requires
        r.inv(),
        shows(v, r),
        v.may_get(),
    ensures
        ({
            let mid = r.after(RingStep::ClaimGet);
            let step = RingStep::Free(r.dequeue_pos);
            &&& r.steps(RingStep::ClaimGet, mid)
            &&& mid.steps(step, mid.after(step))
            &&& mid.after(step).inv()
            &&& shows(v.got(), mid.after(step))
            &&& v.slots[slot_of(v.dequeue_pos as int, v.cap())] == Some(
                mid.after(step).got[r.dequeue_pos],
            )
        }),
{
    let mid = r.after(RingStep::ClaimGet);
    law_layout_decides_alike(v, r);
    law_layout_follows_the_protocol(v, r, RingStep::ClaimGet);
    law_layout_decides_alike(v.claimed_get(), mid);
    assert(mid.reading.contains(r.dequeue_pos));
    law_layout_follows_the_protocol(v.claimed_get(), mid, RingStep::Free(r.dequeue_pos));
    lemma_step_keeps_inv(
        mid,
        RingStep::Free(r.dequeue_pos),
        mid.after(RingStep::Free(r.dequeue_pos)),
    );
}

/// The requests that were published and not taken yet, oldest first, once no
/// thread is at work.
pub open spec fn queued(r: SharedRing) -> Seq<RequestView> {
    Seq::new((r.enqueue_pos - r.dequeue_pos) as nat, |i: int| r.put[r.dequeue_pos + i])
}

/// Where the `j`-th position from the next one to be taken lies in the ring.
proof fn lemma_place(v: RingView, r: SharedRing, j: int)
    requires
        shows(v, r),
        0 <= r.dequeue_pos,
        0 <= j,
    ensures
        v.at(j) == r.slot(r.dequeue_pos + j),
        0 <= v.at(j) < v.cap(),
        v.pos(j) == wrapped(r.dequeue_pos + j),
        v.stamps[v.at(j)] == wrapped(r.stamps[r.slot(r.dequeue_pos + j)]),
{
    let d = r.dequeue_pos;
    lemma_wrapped_slot(d, j, v.cap());
    assert(slot_of(d + j, v.cap()) == r.slot(d + j)) by {
        reveal(slot_of);
    }
    vstd::arithmetic::div_mod::lemma_mod_bound(d + j, r.cap);
    lemma_word_of(d);
    lemma_words_apart(d + j, wrapped(d) + j, d / 0x1_0000_0000_0000_0000);
}

/// Once no thread is at work, the positions between the two are published and not
/// taken.
proof fn lemma_quiet_queued(v: RingView, r: SharedRing, j: int)
    requires
        r.inv(),
        shows(v, r),
        r.writing.is_empty(),
        0 <= j < r.enqueue_pos - r.dequeue_pos <= r.cap,
    ensures
        v.stamps[v.at(j)] == wrapped(2 * v.pos(j) + 1),
        v.slots[v.at(j)] == Some(r.put[r.dequeue_pos + j]),
{
    let p = r.dequeue_pos + j;
    lemma_place(v, r, j);
    lemma_doubled(p);
    assert(r.slot_ok(p));
    assert(slot_shown(v, r, p));
    assert(!r.writing.contains(p));
    assert(!r.got.dom().contains(p));
    assert(r.put.dom().contains(p));
}

/// Once no thread is at work, the positions behind those are free.
proof fn lemma_quiet_free(v: RingView, r: SharedRing, j: int)
    requires
        r.inv(),
        shows(v, r),
        r.reading.is_empty(),
        0 <= r.enqueue_pos - r.dequeue_pos <= j < r.cap,
    ensures
        v.stamps[v.at(j)] == wrapped(2 * v.pos(j)),
        v.slots[v.at(j)] is None,
{
    let p = r.dequeue_pos + j - r.cap;
    lemma_place(v, r, j);
    lemma_doubled(r.dequeue_pos + j);
    lemma_lap(r.dequeue_pos + j, r.cap);
    assert(r.slot_ok(p));
    assert(slot_shown(v, r, p));
    assert(!r.reading.contains(p));
    if p < 0 {
        assert(!r.put.dom().contains(p));
    } else {
        assert(r.got.dom().contains(p));
    }
}

/// Once no thread is at work, a ring is in order again, and holds what was
/// published and not taken.
pub proof fn law_quiet_ring_is_in_order(v: RingView, r: SharedRing)
    requires
        r.inv(),
        shows(v, r),
        r.writing.is_empty(),
        r.reading.is_empty(),
    ensures
        v.ok(),
        v.contents() == queued(r),
{
    let n = r.enqueue_pos - r.dequeue_pos;
    assert(n <= r.cap) by {
        if n > r.cap {
            assert(r.got.dom().contains(r.dequeue_pos));
        }
    }
    lemma_distance(r.enqueue_pos, r.dequeue_pos);
    assert forall|j: int| 0 <= j < v.cap() implies #[trigger] v.slot_ok(j) by {
        if j < n {
            lemma_quiet_queued(v, r, j);
        } else {
            lemma_quiet_free(v, r, j);
        }
    }
    let a = v.contents();
    let b = queued(r);
    assert forall|j: int| 0 <= j < n implies a[j] == b[j] by {
        lemma_quiet_queued(v, r, j);
    }
    assert(a =~= b);
}

/// Positions that are not a word apart are as far apart as their words.
proof fn lemma_distance(p: int, q: int)
    requires
        0 <= p - q < 0x1_0000_0000_0000_0000,
    ensures
        wrapped(wrapped(p) - wrapped(q)) == p - q,
{
    lemma_word_of(p);
    lemma_word_of(q);
    lemma_words_apart(
        p - q,
        wrapped(p) - wrapped(q),
        p / 0x1_0000_0000_0000_0000 - q / 0x1_0000_0000_0000_0000,
    );
    vstd::arithmetic::div_mod::lemma_small_mod((p - q) as nat, 0x1_0000_0000_0000_0000);
}

} // verus!
