//! The bounded ring between the hot main loop and the flush worker.
//!
//! Every slot carries a stamp that says whose turn it is. Positions count up
//! for ever (modulo the word size) and a position's slot is its remainder by
//! the capacity, a power of two. A slot that waits for a producer at position
//! `p` is stamped `2p`, one that holds the request of position `p` is stamped
//! `2p + 1`. Comparing a slot's stamp with the one that is waited for is the
//! whole decision: equal means "mine", behind means full (for a producer) or
//! empty (for a consumer), ahead means that another thread has moved on.

use crate::domain::{request_views, Queue, RequestView, WriteRequest};
use vstd::arithmetic::div_mod::{
    lemma_mod_add_multiples_vanish, lemma_mod_bound, lemma_mod_equivalence, lemma_mod_mod,
    lemma_small_mod,
};
use vstd::arithmetic::power::{lemma_pow_positive, pow};
use vstd::arithmetic::power2::{
    is_pow2, is_pow2_equiv, is_pow2_exists, lemma2_to64, lemma2_to64_rest, lemma_pow2_adds,
    lemma_pow2_pos, lemma_pow2_strictly_increases, pow2,
};
use vstd::bits::{lemma_u64_low_bits_mask_is_mod, low_bits_mask};
use vstd::prelude::*;

verus! {

/// The largest capacity of a ring.
pub const MAX_CAPACITY: u64 = 0x4000_0000_0000_0000;

/// `x` as a 64-bit position.
pub open spec fn wrapped(x: int) -> u64 {
    (x % 0x1_0000_0000_0000_0000) as u64
}

/// The stamp of a slot that waits for the producer at `pos`.
pub fn free_stamp(pos: u64) -> (stamp: u64)
    ensures
        stamp == wrapped(2 * pos),
{
    pos.wrapping_add(pos)
}

/// The stamp of a slot that holds the request of position `pos`.
pub fn published_stamp(pos: u64) -> (stamp: u64)
    ensures
        stamp == wrapped(2 * pos + 1),
{
    pos.wrapping_add(pos).wrapping_add(1)
}

/// Whose turn a slot is.
#[derive(Debug, Clone, Copy, PartialEq, Eq, Structural)]
pub enum Turn {
    /// The slot is stamped as waited for.
    Mine,
    /// The slot is not there yet: full for a producer, empty for a consumer.
    Behind,
    /// Another thread has moved past the position: look again.
    Ahead,
}

/// Compares the stamp of a slot with the one that is waited for, as a signed
/// distance.
pub open spec fn turn(stamp: u64, wanted: u64) -> Turn {
    if stamp == wanted {
        Turn::Mine
    } else if wrapped(stamp - wanted) >= 0x8000_0000_0000_0000 {
        Turn::Behind
    } else {
        Turn::Ahead
    }
}

/// Compares the stamp of a slot with the one that is waited for.
pub fn slot_turn(stamp: u64, wanted: u64) -> (t: Turn)
    ensures
        t == turn(stamp, wanted),
{
    let distance: u64 = stamp.wrapping_sub(wanted);
    if distance == 0 {
        Turn::Mine
    } else if distance >= 0x8000_0000_0000_0000 {
        Turn::Behind
    } else {
        Turn::Ahead
    }
}

/// How many requests lie between two positions that were read one after the
/// other while threads were at work: none if the second seems to be behind the
/// first, and never more than fit.
pub open spec fn between(enqueue_pos: u64, dequeue_pos: u64, capacity: u64) -> u64 {
    let distance = wrapped(enqueue_pos - dequeue_pos);
    if distance >= 0x8000_0000_0000_0000 {
        0
    } else if distance > capacity {
        capacity
    } else {
        distance
    }
}

/// Estimates how full a ring is from its two positions. Exact when nothing else
/// touches the ring.
pub fn occupancy(enqueue_pos: u64, dequeue_pos: u64, capacity: u64) -> (n: u64)
    ensures
        n == between(enqueue_pos, dequeue_pos, capacity),
{
    let distance: u64 = enqueue_pos.wrapping_sub(dequeue_pos);
    if distance >= 0x8000_0000_0000_0000 {
        0
    } else if distance > capacity {
        capacity
    } else {
        distance
    }
}

/// Whether `cap` is the least power of two that is at least `requested`.
pub open spec fn is_rounded_up(cap: int, requested: int) -> bool {
    &&& is_pow2(cap)
    &&& cap >= requested
    &&& cap == 1 || cap < 2 * requested
}

/// The capacity of a ring that was asked to hold `requested`.
pub fn ring_capacity(requested: usize) -> (cap: usize)
    requires
        requested <= usize::MAX / 4 + 1,
    ensures
        is_rounded_up(cap as int, requested as int),
        cap <= MAX_CAPACITY,
{
    let mut cap: usize = 1;
    assert(is_pow2(1)) by {
        reveal(is_pow2);
    }
    while cap < requested
        invariant
            requested <= usize::MAX / 4 + 1,
            is_pow2(cap as int),
            cap == 1 || cap < 2 * requested,
            cap >= 1,
        decreases 2 * requested - cap,
    {
        assert(is_pow2(2 * cap as int)) by {
            reveal_with_fuel(is_pow2, 2);
            assert((2 * cap as int) / 2 == cap);
        }
        cap = 2 * cap;
    }
    proof {
        lemma_pow2_below(cap as int);
    }
    cap
}

/// A power of two below 2^63 is at most 2^62.
proof fn lemma_pow2_below(n: int)
    requires
        is_pow2(n),
        n < 0x8000_0000_0000_0000,
    ensures
        n <= MAX_CAPACITY,
{
    is_pow2_equiv(n);
    assert(is_pow2_exists(n));
    let k = choose|i: nat| pow(2, i) == n;
    lemma_pow_positive(2, k);
    lemma2_to64();
    lemma2_to64_rest();
    assert(pow2(k) == n);
    if k > 62 {
        if k > 63 {
            lemma_pow2_strictly_increases(63, k);
        }
        assert(pow2(63) == 0x8000_0000_0000_0000);
    } else if k < 62 {
        lemma_pow2_strictly_increases(k, 62);
    }
}

/// A power of two that is at most 2^62 divides 2^64.
proof fn lemma_pow2_divides(n: int)
    requires
        is_pow2(n),
        n <= MAX_CAPACITY,
    ensures
        n > 0,
        exists|q: int| q > 0 && #[trigger] (n * q) == 0x1_0000_0000_0000_0000,
{
    is_pow2_equiv(n);
    assert(is_pow2_exists(n));
    let k = choose|i: nat| pow(2, i) == n;
    lemma_pow_positive(2, k);
    lemma2_to64();
    lemma2_to64_rest();
    if k > 64 {
        lemma_pow2_strictly_increases(64, k);
    }
    lemma_pow2_adds(k, (64 - k) as nat);
    lemma_pow2_pos((64 - k) as nat);
    let q = pow2((64 - k) as nat) as int;
    assert(n * q == 0x1_0000_0000_0000_0000);
}

/// The slot of a position in a ring of `cap` slots.
#[verifier::opaque]
pub open spec fn slot_of(pos: int, cap: int) -> int {
    pos % cap
}

proof fn lemma_slot_range(pos: int, cap: int)
    requires
        cap > 0,
    ensures
        0 <= slot_of(pos, cap) < cap,
{
    reveal(slot_of);
    lemma_mod_bound(pos, cap);
}

/// The slot of a later position does not depend on whether the positions have
/// wrapped in between.
pub proof fn lemma_wrapped_slot(x: int, j: int, cap: int)
    requires
        0 <= x,
        is_pow2(cap),
        cap <= MAX_CAPACITY,
    ensures
        cap > 0,
        slot_of(wrapped(x) + j, cap) == slot_of(x + j, cap),
{
    reveal(slot_of);
    lemma_pow2_divides(cap);
    let q = choose|q: int| q > 0 && #[trigger] (cap * q) == 0x1_0000_0000_0000_0000;
    let y = wrapped(x) as int;
    lemma_mod_mod(x, cap, q);
    lemma_mod_equivalence(x, y, cap);
    lemma_mod_equivalence(x + j, y + j, cap);
    assert((x + j) - (y + j) == x - y);
}

/// The slots of `cap` consecutive positions are all different.
proof fn lemma_slots_differ(d: int, i: int, j: int, cap: int)
    requires
        0 <= d,
        0 <= i < cap,
        0 <= j < cap,
        i != j,
    ensures
        slot_of(d + i, cap) != slot_of(d + j, cap),
{
    reveal(slot_of);
    if (d + i) % cap == (d + j) % cap {
        lemma_mod_equivalence(d + i, d + j, cap);
        if i < j {
            lemma_mod_equivalence(d + j, d + i, cap);
            lemma_small_mod((j - i) as nat, cap as nat);
        } else {
            lemma_small_mod((i - j) as nat, cap as nat);
        }
    }
}

/// One lap further is the same slot.
proof fn lemma_next_lap(x: int, cap: int)
    requires
        cap > 0,
    ensures
        slot_of(x + cap, cap) == slot_of(x, cap),
{
    reveal(slot_of);
    lemma_mod_add_multiples_vanish(x, cap);
}

/// The slot of position `pos` in a ring with mask `mask`.
pub fn slot_index(pos: u64, mask: u64) -> (at: u64)
    requires
        is_pow2(mask + 1),
        mask < MAX_CAPACITY,
    ensures
        at == slot_of(pos as int, mask + 1),
        at <= mask,
{
    proof {
        reveal(slot_of);
        let n = mask + 1;
        is_pow2_equiv(n);
        assert(is_pow2_exists(n));
        let k = choose|i: nat| pow(2, i) == n;
        lemma_pow_positive(2, k);
        lemma2_to64();
        lemma2_to64_rest();
        if k >= 64 {
            if k > 64 {
                lemma_pow2_strictly_increases(64, k);
            }
        }
        lemma_u64_low_bits_mask_is_mod(pos, k);
        assert(low_bits_mask(k) == mask);
    }
    pos & mask
}

/// A ring at one moment: its two positions, and the stamp and the request of
/// every slot.
#[verifier::ext_equal]
pub struct RingView {
    /// The next position that a producer claims.
    pub enqueue_pos: u64,
    /// The next position that a consumer claims.
    pub dequeue_pos: u64,
    /// The stamp of every slot.
    pub stamps: Seq<u64>,
    /// The request in every slot.
    pub slots: Seq<Option<RequestView>>,
}

impl RingView {
    /// An empty ring of `cap` slots, each free for the first lap.
    pub open spec fn fresh(cap: nat) -> RingView {
        RingView {
            enqueue_pos: 0,
            dequeue_pos: 0,
            stamps: Seq::new(cap, |i: int| wrapped(2 * i)),
            slots: Seq::new(cap, |i: int| None),
        }
    }

    /// Number of slots.
    pub open spec fn cap(self) -> int {
        self.stamps.len() as int
    }

    /// Whether the number of slots is one that a ring can have.
    pub open spec fn shaped(self) -> bool {
        &&& is_pow2(self.cap())
        &&& 1 <= self.cap() <= MAX_CAPACITY
        &&& self.slots.len() == self.cap()
    }

    /// Whether the slot of the next position is stamped as free for a producer.
    pub open spec fn may_put(self) -> bool {
        self.stamps[slot_of(self.enqueue_pos as int, self.cap())] == wrapped(2 * self.enqueue_pos)
    }

    /// A producer has claimed the next position.
    pub open spec fn claimed_put(self) -> RingView {
        RingView { enqueue_pos: wrapped(self.enqueue_pos + 1), ..self }
    }

    /// The producer of position `pos` has put its request in and published it.
    pub open spec fn published(self, pos: u64, request: RequestView) -> RingView {
        let at = slot_of(pos as int, self.cap());
        RingView {
            stamps: self.stamps.update(at, wrapped(2 * pos + 1)),
            slots: self.slots.update(at, Some(request)),
            ..self
        }
    }

    /// Whether the slot of the next position is stamped as published for a
    /// consumer.
    pub open spec fn may_get(self) -> bool {
        self.stamps[slot_of(self.dequeue_pos as int, self.cap())] == wrapped(
            2 * self.dequeue_pos + 1,
        )
    }

    /// A consumer has claimed the next position.
    pub open spec fn claimed_get(self) -> RingView {
        RingView { dequeue_pos: wrapped(self.dequeue_pos + 1), ..self }
    }

    /// The consumer of position `pos` has taken the request out and freed the slot
    /// for the next lap.
    pub open spec fn freed(self, pos: u64) -> RingView {
        let at = slot_of(pos as int, self.cap());
        RingView {
            stamps: self.stamps.update(at, wrapped(2 * wrapped(pos + self.cap()))),
            slots: self.slots.update(at, None),
            ..self
        }
    }

    /// A producer has claimed the next position and published its request there.
    pub open spec fn put(self, request: RequestView) -> RingView {
        self.claimed_put().published(self.enqueue_pos, request)
    }

    /// A consumer has claimed the next position and freed it.
    pub open spec fn got(self) -> RingView {
        self.claimed_get().freed(self.dequeue_pos)
    }

    /// The slot of the `j`-th position from the next one to be taken.
    pub open spec fn at(self, j: int) -> int {
        slot_of(self.dequeue_pos + j, self.cap())
    }

    /// The `j`-th position from the next one to be taken.
    pub open spec fn pos(self, j: int) -> u64 {
        wrapped(self.dequeue_pos + j)
    }

    /// Number of positions that producers have claimed and consumers have not.
    pub open spec fn count(self) -> int {
        wrapped(self.enqueue_pos - self.dequeue_pos) as int
    }

    /// Whether the slot of the `j`-th position is as it must be with no thread at
    /// work.
    pub open spec fn slot_ok(self, j: int) -> bool {
        let at = self.at(j);
        if j < self.count() {
            self.stamps[at] == wrapped(2 * self.pos(j) + 1) && self.slots[at] is Some
        } else {
            self.stamps[at] == wrapped(2 * self.pos(j)) && self.slots[at] is None
        }
    }

    /// With no thread at work, the slots from the next one to be taken hold the
    /// requests in order; the others wait for the positions that follow.
    pub open spec fn ok(self) -> bool {
        &&& self.shaped()
        &&& self.count() <= self.cap()
        &&& forall|j: int| 0 <= j < self.cap() ==> #[trigger] self.slot_ok(j)
    }

    /// The requests in the ring, oldest first.
    pub open spec fn contents(self) -> Seq<RequestView> {
        Seq::new(self.count() as nat, |j: int| self.slots[self.at(j)]->Some_0)
    }
}

proof fn lemma_fresh_view(cap: nat)
    requires
        is_pow2(cap as int),
        1 <= cap <= MAX_CAPACITY,
    ensures
        RingView::fresh(cap).ok(),
        RingView::fresh(cap).contents() == Seq::<RequestView>::empty(),
{
    let v = RingView::fresh(cap);
    assert forall|j: int| 0 <= j < v.cap() implies #[trigger] v.slot_ok(j) by {
        reveal(slot_of);
        lemma_small_mod(j as nat, v.cap() as nat);
    }
    assert(v.contents() =~= Seq::empty());
}

/// A ring lets a producer in exactly if it has room.
proof fn lemma_may_put(v: RingView)
    requires
        v.ok(),
    ensures
        v.may_put() <==> v.count() < v.cap(),
        v.enqueue_pos == v.pos(v.count()),
        slot_of(v.enqueue_pos as int, v.cap()) == v.at(v.count()),
{
    let n = v.count();
    lemma_wrapped_slot(v.dequeue_pos + n, 0, v.cap());
    if n == v.cap() {
        lemma_next_lap(v.dequeue_pos as int, v.cap());
        assert(v.at(n) == v.at(0));
        assert(v.slot_ok(0));
    } else {
        assert(v.slot_ok(n));
    }
}

proof fn lemma_put(v: RingView, request: RequestView)
    requires
        v.ok(),
        v.may_put(),
    ensures
        v.put(request).ok(),
        v.put(request).cap() == v.cap(),
        v.put(request).contents() == v.contents().push(request),
{
    let n = v.count();
    let after = v.put(request);
    let d = v.dequeue_pos as int;
    lemma_may_put(v);
    lemma_slot_range(d + n, v.cap());
    assert(after.count() == n + 1);
    assert forall|j: int| 0 <= j < v.cap() && j != n implies #[trigger] v.at(j) != v.at(n) by {
        lemma_slots_differ(d, j, n, v.cap());
    }
    assert forall|j: int| 0 <= j < after.cap() implies #[trigger] after.slot_ok(j) by {
        assert(v.slot_ok(j));
        lemma_slot_range(d + j, v.cap());
        if j != n {
            assert(v.at(j) != v.at(n));
        }
    }
    let a = after.contents();
    let b = v.contents().push(request);
    assert forall|j: int| 0 <= j < a.len() implies a[j] == b[j] by {
        lemma_slot_range(d + j, v.cap());
        if j < n {
            assert(v.at(j) != v.at(n));
        }
    }
    assert(a =~= b);
}

/// A ring lets a consumer in exactly if it holds something.
proof fn lemma_may_get(v: RingView)
    requires
        v.ok(),
    ensures
        v.may_get() <==> v.count() > 0,
        v.dequeue_pos == v.pos(0),
        v.count() > 0 ==> v.slots[v.at(0)] == Some(v.contents()[0]),
{
    assert(v.slot_ok(0));
}

proof fn lemma_got_count(v: RingView)
    requires
        v.shaped(),
        v.count() > 0,
    ensures
        v.got().count() == v.count() - 1,
        v.got().cap() == v.cap(),
        v.got().slots.len() == v.cap(),
        v.got().dequeue_pos == wrapped(v.dequeue_pos + 1),
{
    lemma_slot_range(v.dequeue_pos as int, v.cap());
}

proof fn lemma_got_place(v: RingView, j: int)
    requires
        v.shaped(),
        v.count() > 0,
        0 <= j < v.cap(),
    ensures
        v.got().at(j) == v.at(j + 1),
        v.got().pos(j) == v.pos(j + 1),
        0 <= v.at(j + 1) < v.cap(),
        (j + 1 < v.cap()) <==> v.at(j + 1) != v.at(0),
{
    let cap = v.cap();
    let d = v.dequeue_pos as int;
    lemma_got_count(v);
    lemma_wrapped_slot(d + 1, j, cap);
    lemma_slot_range(d + j + 1, cap);
    if j + 1 < cap {
        lemma_slots_differ(d, 0, j + 1, cap);
    } else {
        lemma_next_lap(d, cap);
    }
}

proof fn lemma_got_slot(v: RingView, j: int)
    requires
        v.ok(),
        v.count() > 0,
        0 <= j < v.cap(),
    ensures
        v.got().slot_ok(j),
        j + 1 < v.cap() ==> v.got().slots[v.got().at(j)] == v.slots[v.at(j + 1)],
{
    let at = v.at(0);
    let after = v.got();
    lemma_got_count(v);
    lemma_got_place(v, j);
    lemma_slot_range(v.dequeue_pos as int, v.cap());
    assert(after.stamps == v.stamps.update(at, wrapped(2 * v.pos(v.cap()))));
    assert(after.slots == v.slots.update(at, None));
    if j + 1 < v.cap() {
        assert(v.slot_ok(j + 1));
    }
}

proof fn lemma_got(v: RingView)
    requires
        v.ok(),
        v.count() > 0,
    ensures
        v.got().ok(),
        v.got().cap() == v.cap(),
        v.got().contents() == v.contents().skip(1),
{
    let after = v.got();
    lemma_got_count(v);
    assert forall|j: int| 0 <= j < after.cap() implies #[trigger] after.slot_ok(j) by {
        lemma_got_slot(v, j);
    }
    let a = after.contents();
    let b = v.contents().skip(1);
    assert forall|j: int| 0 <= j < a.len() implies a[j] == b[j] by {
        lemma_got_slot(v, j);
        lemma_got_place(v, j);
    }
    assert(a =~= b);
}

/// One slot of the ring.
struct Slot {
    /// Whose turn the slot is.
    stamp: u64,
    /// The request that was published here and not taken yet.
    request: Option<WriteRequest>,
}

impl Slot {
    spec fn request_view(self) -> Option<RequestView> {
        match self.request {
            Some(request) => Some(request@),
            None => None,
        }
    }
}

/// A bounded ring of [`WriteRequest`]s.
pub struct RingBuffer {
    /// The slots, allocated once.
    slots: Vec<Slot>,
    /// The capacity less one: masking a position with it gives its slot.
    mask: u64,
    /// The next position that a producer claims.
    enqueue_pos: u64,
    /// The next position that a consumer claims.
    dequeue_pos: u64,
}

/// Putting a request in and taking one out are two steps each: a claim of the
/// next position, and the work on its slot. A thread does each of the two at one
/// stroke, and other threads may come in between (see [`crate::protocol`]).
impl RingBuffer {
    /// The positions, and the stamp and the request of every slot.
    pub closed spec fn layout(&self) -> RingView {
        RingView {
            enqueue_pos: self.enqueue_pos,
            dequeue_pos: self.dequeue_pos,
            stamps: Seq::new(self.slots@.len(), |i: int| self.slots@[i].stamp),
            slots: Seq::new(self.slots@.len(), |i: int| self.slots@[i].request_view()),
        }
    }

    /// Whether the ring has the slots that its mask asks for.
    pub closed spec fn shaped(&self) -> bool {
        &&& self.layout().shaped()
        &&& self.slots@.len() == self.mask + 1
        &&& self.slots@.len() <= usize::MAX
    }

    /// Creates an empty ring whose capacity is `capacity` rounded up to a power
    /// of two, and at least 1.
    pub fn new(capacity: usize) -> (ring: RingBuffer)
        requires
            capacity <= usize::MAX / 4 + 1,
        ensures
            ring.wf(),
            ring.items() == Seq::<RequestView>::empty(),
            is_rounded_up(ring.limit() as int, capacity as int),
            ring.layout() == RingView::fresh(ring.limit()),
    {
        let cap: usize = ring_capacity(capacity);
        let mut slots: Vec<Slot> = Vec::with_capacity(cap);
        let mut i: usize = 0;
        while i < cap
            invariant
                i <= cap,
                slots@.len() == i,
                forall|j: int|
                    0 <= j < i ==> (#[trigger] slots@[j]).stamp == wrapped(2 * j)
                        && slots@[j].request is None,
            decreases cap - i,
        {
            slots.push(Slot { stamp: free_stamp(i as u64), request: None });
            i = i + 1;
        }
        let ring = RingBuffer { slots, mask: (cap - 1) as u64, enqueue_pos: 0, dequeue_pos: 0 };
        proof {
            lemma_fresh_view(cap as nat);
            assert(ring.layout() =~= RingView::fresh(cap as nat));
        }
        ring
    }

    /// The first step of putting a request in: claims the next position, if its
    /// slot is free.
    pub fn claim_put(&mut self) -> (pos: Option<u64>)
        requires
            old(self).shaped(),
        ensures
            final(self).shaped(),
            match pos {
                Some(pos) => old(self).layout().may_put() && pos == old(self).layout().enqueue_pos
                    && final(self).layout() == old(self).layout().claimed_put(),
                None => !old(self).layout().may_put() && final(self).layout()
                    == old(self).layout(),
            },
    {
        let pos: u64 = self.enqueue_pos;
        let at: usize = slot_index(pos, self.mask) as usize;
        match slot_turn(self.slots[at].stamp, free_stamp(pos)) {
            Turn::Mine => {
                self.enqueue_pos = pos.wrapping_add(1);
                assert(self.layout() =~= old(self).layout().claimed_put());
                Some(pos)
            },
            _ => None,
        }
    }

    /// The second step of putting a request in: puts it into the slot of the
    /// claimed position and publishes it.
    pub fn publish(&mut self, pos: u64, req: WriteRequest)
        requires
            old(self).shaped(),
        ensures
            final(self).shaped(),
            final(self).layout() == old(self).layout().published(pos, req@),
    {
        let at: usize = slot_index(pos, self.mask) as usize;
        assert(at == slot_of(pos as int, self.layout().cap()));
        self.slots[at] = Slot { stamp: published_stamp(pos), request: Some(req) };
        assert(self.layout() =~= old(self).layout().published(pos, req@));
    }

    /// The first step of taking a request out: claims the next position, if its
    /// slot holds one.
    pub fn claim_get(&mut self) -> (pos: Option<u64>)
        requires
            old(self).shaped(),
        ensures
            final(self).shaped(),
            match pos {
                Some(pos) => old(self).layout().may_get() && pos == old(self).layout().dequeue_pos
                    && final(self).layout() == old(self).layout().claimed_get(),
                None => !old(self).layout().may_get() && final(self).layout()
                    == old(self).layout(),
            },
    {
        let pos: u64 = self.dequeue_pos;
        let at: usize = slot_index(pos, self.mask) as usize;
        match slot_turn(self.slots[at].stamp, published_stamp(pos)) {
            Turn::Mine => {
                self.dequeue_pos = pos.wrapping_add(1);
                assert(self.layout() =~= old(self).layout().claimed_get());
                Some(pos)
            },
            _ => None,
        }
    }

    /// The second step of taking a request out: takes it from the slot of the
    /// claimed position and frees the slot for the next lap.
    pub fn free(&mut self, pos: u64) -> (request: Option<WriteRequest>)
        requires
            old(self).shaped(),
        ensures
            final(self).shaped(),
            final(self).layout() == old(self).layout().freed(pos),
            ({
                let held = old(self).layout().slots[slot_of(pos as int, old(self).layout().cap())];
                match request {
                    Some(request) => held == Some(request@),
                    None => held is None,
                }
            }),
    {
        let at: usize = slot_index(pos, self.mask) as usize;
        assert(at == slot_of(pos as int, self.layout().cap()));
        let stamp: u64 = free_stamp(pos.wrapping_add(self.mask).wrapping_add(1));
        let mut slot = Slot { stamp, request: None };
        std::mem::swap(&mut self.slots[at], &mut slot);
        assert(self.layout() =~= old(self).layout().freed(pos));
        slot.request
    }
}

impl Queue for RingBuffer {
    open spec fn items(&self) -> Seq<RequestView> {
        self.layout().contents()
    }

    open spec fn limit(&self) -> nat {
        self.layout().cap() as nat
    }

    open spec fn wf(&self) -> bool {
        self.shaped() && self.layout().ok()
    }

    fn try_enqueue(&mut self, req: WriteRequest) -> (result: Result<(), WriteRequest>)
        ensures
            match result {
                Ok(()) => old(self).layout().may_put() && final(self).layout()
                    == old(self).layout().put(req@),
                Err(_) => !old(self).layout().may_put() && final(self).layout()
                    == old(self).layout(),
            },
    {
        proof {
            lemma_may_put(self.layout());
            if self.layout().may_put() {
                lemma_put(self.layout(), req@);
            }
        }
        match self.claim_put() {
            Some(pos) => {
                self.publish(pos, req);
                Ok(())
            },
            None => Err(req),
        }
    }

    fn try_dequeue(&mut self) -> (result: Option<WriteRequest>)
        ensures
            match result {
                Some(_) => old(self).layout().may_get() && final(self).layout()
                    == old(self).layout().got(),
                None => !old(self).layout().may_get() && final(self).layout()
                    == old(self).layout(),
            },
    {
        proof {
            lemma_may_get(self.layout());
            if self.layout().may_get() {
                lemma_got(self.layout());
            }
        }
        match self.claim_get() {
            Some(pos) => self.free(pos),
            None => None,
        }
    }

    fn drain_into(&mut self, out: &mut Vec<WriteRequest>, max: usize) -> (moved: usize) {
        let mut moved: usize = 0;
        let mut empty = false;
        assert(request_views(out@) + self.items().take(0) =~= request_views(out@));
        assert(self.items().skip(0) =~= self.items());
        while moved < max && !empty
            invariant
                moved <= max,
                moved <= old(self).items().len(),
                self.wf(),
                self.limit() == old(self).limit(),
                request_views(out@) == request_views(old(out)@) + old(self).items().take(
                    moved as int,
                ),
                self.items() == old(self).items().skip(moved as int),
                empty ==> moved == old(self).items().len(),
            decreases max - moved + if empty { 0int } else { 1int },
        {
            let ghost items = old(self).items();
            let ghost before = request_views(out@);
            match self.try_dequeue() {
                Some(req) => {
                    out.push(req);
                    proof {
                        assert(request_views(out@) =~= before.push(req@));
                        assert(items.take(moved + 1) =~= items.take(moved as int).push(
                            items[moved as int],
                        ));
                        assert(items.skip(moved as int).skip(1) =~= items.skip(moved + 1));
                        assert(request_views(out@) =~= request_views(old(out)@) + items.take(
                            moved + 1,
                        ));
                    }
                    moved = moved + 1;
                },
                None => {
                    empty = true;
                },
            }
        }
        moved
    }

    fn len(&self) -> (n: usize) {
        occupancy(self.enqueue_pos, self.dequeue_pos, self.slots.len() as u64) as usize
    }

    fn capacity(&self) -> (n: usize) {
        self.slots.len()
    }
}

/// The capacity of a ring is the least power of two that holds what was asked for, and
/// at least one: no power of two that does is lower.
pub proof fn law_capacity_is_the_least_power_of_two(cap: int, requested: int, other: int)
    requires
        is_rounded_up(cap, requested),
        is_pow2(other),
        other >= requested,
    ensures
        cap >= requested,
        cap >= 1,
        is_pow2(cap),
        cap <= other,
{
    lemma_pow2_apart(cap, other);
}

/// Of two different powers of two, one is at least twice the other.
proof fn lemma_pow2_apart(a: int, b: int)
    requires
        is_pow2(a),
        is_pow2(b),
    ensures
        a >= 1,
        b >= 1,
        a > b ==> a >= 2 * b,
{
    is_pow2_equiv(a);
    is_pow2_equiv(b);
    assert(is_pow2_exists(a));
    assert(is_pow2_exists(b));
    let i = choose|i: nat| pow(2, i) == a;
    let j = choose|j: nat| pow(2, j) == b;
    lemma_pow_positive(2, i);
    lemma_pow_positive(2, j);
    if a > b {
        if i <= j {
            if i < j {
                lemma_pow2_strictly_increases(i, j);
            }
            assert(pow2(i) == a);
            assert(pow2(j) == b);
        } else {
            lemma_pow2_adds(j, (i - j) as nat);
            lemma_pow2_pos(j);
            lemma2_to64();
            if i - j > 1 {
                lemma_pow2_strictly_increases(1, (i - j) as nat);
            }
            assert(pow2(i) == a);
            assert(pow2(j) == b);
            let f = pow2((i - j) as nat) as int;
            assert(f >= 2);
            assert(a == b * f);
            assert(b * f >= b * 2) by (nonlinear_arith)
                requires
                    f >= 2,
                    b >= 1,
            ;
        }
    }
}

/// The estimate of how full a ring is never exceeds what fits, is exact when the two
/// positions were read together, and is none when the consumers seem to be ahead.
pub proof fn law_occupancy_is_exact_when_quiet(enqueue: int, dequeue: int, capacity: u64)
    requires
        capacity < 0x8000_0000_0000_0000,
    ensures
        between(wrapped(enqueue), wrapped(dequeue), capacity) <= capacity,
        0 <= enqueue - dequeue <= capacity ==> between(
            wrapped(enqueue),
            wrapped(dequeue),
            capacity,
        ) == enqueue - dequeue,
        capacity < enqueue - dequeue < 0x8000_0000_0000_0000 ==> between(
            wrapped(enqueue),
            wrapped(dequeue),
            capacity,
        ) == capacity,
        -0x8000_0000_0000_0000 <= enqueue - dequeue < 0 ==> between(
            wrapped(enqueue),
            wrapped(dequeue),
            capacity,
        ) == 0,
{
    let d = enqueue - dequeue;
    let words = enqueue / 0x1_0000_0000_0000_0000 - dequeue / 0x1_0000_0000_0000_0000;
    vstd::arithmetic::div_mod::lemma_fundamental_div_mod(enqueue, 0x1_0000_0000_0000_0000);
    vstd::arithmetic::div_mod::lemma_fundamental_div_mod(dequeue, 0x1_0000_0000_0000_0000);
    let apart = wrapped(enqueue) - wrapped(dequeue);
    assert(d == apart + words * 0x1_0000_0000_0000_0000);
    vstd::arithmetic::div_mod::lemma_mod_multiples_vanish(words, apart, 0x1_0000_0000_0000_0000);
    assert(wrapped(d) == wrapped(apart));
    if 0 <= d < 0x8000_0000_0000_0000 {
        lemma_small_mod(d as nat, 0x1_0000_0000_0000_0000);
    } else if -0x8000_0000_0000_0000 <= d < 0 {
        vstd::arithmetic::div_mod::lemma_mod_multiples_vanish(1, d, 0x1_0000_0000_0000_0000);
        lemma_small_mod(
            (d + 0x1_0000_0000_0000_0000) as nat,
            0x1_0000_0000_0000_0000,
        );
    }
}

} // verus!
