//! The single authority for log sequence numbers.
//!
//! Every record in the log carries a number of its own, whichever path wrote it:
//! the flush worker, a durable submission or a flush driven by a caller. All of
//! them draw from one counter.
//!
//! A record is in the log so that its content survives a kill until the store
//! has it. So its number is pending from before it is logged until the store has
//! accepted its entity in a newer version, or in its version from a batch that was
//! taken out of the cache after the record's content had come in: that batch holds
//! the content, or a later write that won over it. No checkpoint may reach a
//! pending number. A cache cannot stand in for the store here: it does not survive
//! a kill. And a version alone cannot stand in for the content: another write of
//! the same version may have been accepted before the record was written.

use crate::domain::{
    record_views, request_views, state_views, Lsn, PlayerId, PlayerState, RecordView, RequestView,
    StateView, WalRecord, WriteRequest,
};
use crate::wal::{law_checkpoint_keeps_exactly_the_later_records, survivors};
use std::collections::{HashMap, HashSet};
use vstd::prelude::*;

verus! {

broadcast use vstd::std_specs::hash::group_hash_axioms;

/// What a pending number waits for.
#[derive(Debug, Clone, Copy, PartialEq, Eq, Structural)]
pub enum Claim {
    /// For [`LsnState::note_drained`] alone.
    Pinned,
    /// For the store to accept this entity in a newer version, or in this version
    /// from a batch that is numbered `since` or higher. Those are the batches that
    /// were taken after the content had come into the cache; there are none as
    /// long as it has not.
    State {
        player_id: PlayerId,
        version: u64,
        since: Option<Lsn>,
    },
}

/// A pending number.
#[derive(Debug, Clone, Copy, PartialEq, Eq, Structural)]
pub struct Owed {
    pub lsn: Lsn,
    pub claim: Claim,
}

/// The counter and the pending numbers.
pub struct LsnState {
    /// The next number to be handed out.
    next: Lsn,
    /// The pending numbers, in the order in which they were noted.
    pending: Vec<Owed>,
    /// The highest version of each entity that the store has accepted.
    accepted: HashMap<PlayerId, u64>,
}

/// An [`LsnState`] as its callers see it.
#[verifier::ext_equal]
pub struct LsnView {
    pub next: Lsn,
    pub pending: Seq<Owed>,
    pub accepted: Map<PlayerId, u64>,
}

/// What the number of a record waits for.
pub open spec fn claim_of(r: RecordView, since: Option<Lsn>) -> Owed {
    Owed { lsn: r.lsn, claim: Claim::State { player_id: r.player_id, version: r.version, since } }
}

/// What the numbers of records wait for, whose content is in the cache.
pub open spec fn claims(records: Seq<RecordView>, since: Lsn) -> Seq<Owed> {
    Seq::new(records.len(), |i: int| claim_of(records[i], Some(since)))
}

/// Whether the highest accepted versions settle a claim: one of them is newer.
pub open spec fn outdated(accepted: Map<PlayerId, u64>, claim: Claim) -> bool {
    claim matches Claim::State { player_id, version, .. } && accepted.dom().contains(player_id)
        && accepted[player_id] > version
}

/// Whether a batch numbered `at`, which holds these versions, settles a claim: it
/// was taken after the content had come into the cache, and holds the entity in
/// the version or a newer one.
pub open spec fn carried(held: Map<PlayerId, u64>, at: Lsn, claim: Claim) -> bool {
    claim matches Claim::State { player_id, version, since: Some(since) } && since <= at
        && held.dom().contains(player_id) && held[player_id] >= version
}

/// Whether a claim is settled once a batch numbered `at`, which holds these
/// versions, is accepted.
pub open spec fn settles(
    accepted: Map<PlayerId, u64>,
    held: Map<PlayerId, u64>,
    at: Lsn,
    claim: Claim,
) -> bool {
    outdated(accepted, claim) || carried(held, at, claim)
}

/// What is accepted once the store has accepted `state` too.
pub open spec fn raised(accepted: Map<PlayerId, u64>, state: StateView) -> Map<PlayerId, u64> {
    if accepted.dom().contains(state.player_id) && accepted[state.player_id] > state.version {
        accepted
    } else {
        accepted.insert(state.player_id, state.version)
    }
}

/// What is accepted once the store has accepted `states` too.
pub open spec fn raised_all(accepted: Map<PlayerId, u64>, states: Seq<StateView>) -> Map<
    PlayerId,
    u64,
>
    decreases states.len(),
{
    if states.len() == 0 {
        accepted
    } else {
        raised(raised_all(accepted, states.drop_last()), states.last())
    }
}

/// The pending numbers that are still owed something once a batch numbered `at`,
/// which holds these versions, is accepted.
pub open spec fn unsettled(
    pending: Seq<Owed>,
    accepted: Map<PlayerId, u64>,
    held: Map<PlayerId, u64>,
    at: Lsn,
) -> Seq<Owed>
    decreases pending.len(),
{
    if pending.len() == 0 {
        Seq::empty()
    } else if settles(accepted, held, at, pending.last().claim) {
        unsettled(pending.drop_last(), accepted, held, at)
    } else {
        unsettled(pending.drop_last(), accepted, held, at).push(pending.last())
    }
}

/// A pending number whose content has come into the cache, if it is one of
/// `numbers`. Batches that are taken from then on are numbered `from` or higher.
pub open spec fn cached(owed: Owed, numbers: Set<Lsn>, from: Lsn) -> Owed {
    match owed.claim {
        Claim::State { player_id, version, since: None } if numbers.contains(owed.lsn) => Owed {
            claim: Claim::State { player_id, version, since: Some(from) },
            ..owed
        },
        _ => owed,
    }
}

/// The numbers that `requests` carry.
pub open spec fn carried_numbers(requests: Seq<RequestView>) -> Set<Lsn> {
    Set::new(|lsn: Lsn| exists|i: int| 0 <= i < requests.len() && (#[trigger] requests[i]).seq == lsn)
}

/// The pending numbers other than `lsn`.
pub open spec fn without(pending: Seq<Owed>, lsn: Lsn) -> Seq<Owed>
    decreases pending.len(),
{
    if pending.len() == 0 {
        Seq::empty()
    } else if pending.last().lsn == lsn {
        without(pending.drop_last(), lsn)
    } else {
        without(pending.drop_last(), lsn).push(pending.last())
    }
}

impl LsnView {
    /// A counter at `start` with nothing pending.
    pub open spec fn fresh(start: Lsn) -> LsnView {
        LsnView { next: start, pending: Seq::empty(), accepted: Map::empty() }
    }

    /// Whether `lsn` is pending.
    pub open spec fn holds(self, lsn: Lsn) -> bool {
        exists|i: int| 0 <= i < self.pending.len() && (#[trigger] self.pending[i]).lsn == lsn
    }

    /// Whether `min` is the lowest pending number.
    pub open spec fn lowest(self, min: Lsn) -> bool {
        &&& self.holds(min)
        &&& forall|i: int| 0 <= i < self.pending.len() ==> min <= (#[trigger] self.pending[i]).lsn
    }

    /// Whether `safe` is how far a checkpoint up to `proposed` may go: all the
    /// way if nothing is pending, and else not as far as the lowest pending
    /// number. Nothing is safe if that number is 0.
    pub open spec fn watermark(self, proposed: Lsn, safe: Option<Lsn>) -> bool {
        match safe {
            Some(safe) => {
                ||| self.pending.len() == 0 && safe == proposed
                ||| exists|min: Lsn| #[trigger]
                    self.lowest(min) && min > 0 && safe == if proposed < min - 1 {
                        proposed as int
                    } else {
                        min - 1
                    }
            },
            None => self.holds(0),
        }
    }

    /// After `count` numbers were handed out.
    pub open spec fn advanced(self, count: u64) -> LsnView {
        LsnView { next: self.next.wrapping_add(count), ..self }
    }

    /// With one more pending number.
    pub open spec fn noted(self, owed: Owed) -> LsnView {
        LsnView { pending: self.pending.push(owed), ..self }
    }

    /// With the numbers of `records` pending, whose content is in the cache.
    pub open spec fn noted_all(self, records: Seq<RecordView>, since: Lsn) -> LsnView {
        LsnView { pending: self.pending + claims(records, since), ..self }
    }

    /// After the content of some pending numbers has come into the cache.
    pub open spec fn after_caching(self, numbers: Set<Lsn>, from: Lsn) -> LsnView {
        LsnView {
            pending: Seq::new(
                self.pending.len(),
                |i: int| cached(self.pending[i], numbers, from),
            ),
            ..self
        }
    }

    /// With `lsn` not pending.
    pub open spec fn drained(self, lsn: Lsn) -> LsnView {
        LsnView { pending: without(self.pending, lsn), ..self }
    }

    /// After the store has accepted the batch numbered `at`, of `states`: the
    /// numbers whose content it has by now are not pending any more.
    pub open spec fn after_accept(self, states: Seq<StateView>, at: Lsn) -> LsnView {
        let accepted = raised_all(self.accepted, states);
        let held = raised_all(Map::empty(), states);
        LsnView { pending: unsettled(self.pending, accepted, held, at), accepted, ..self }
    }
}

/// Raises the highest versions by those of `states`.
fn raise_all(highest: &mut HashMap<PlayerId, u64>, states: &[PlayerState])
    ensures
        final(highest)@ == raised_all(old(highest)@, state_views(states@)),
{
    let ghost views = state_views(states@);
    let mut i: usize = 0;
    while i < states.len()
        invariant
            i <= states@.len(),
            views == state_views(states@),
            highest@ == raised_all(old(highest)@, views.take(i as int)),
        decreases states@.len() - i,
    {
        assert(views.take(i + 1).drop_last() =~= views.take(i as int));
        let player_id: PlayerId = states[i].player_id;
        let newer = match highest.get(&player_id) {
            Some(version) => *version > states[i].version,
            None => false,
        };
        if !newer {
            highest.insert(player_id, states[i].version);
        }
        i = i + 1;
    }
    assert(views.take(i as int) =~= views);
}

impl View for LsnState {
    type V = LsnView;

    closed spec fn view(&self) -> LsnView {
        LsnView { next: self.next, pending: self.pending@, accepted: self.accepted@ }
    }
}

impl LsnState {
    /// Creates an allocator whose first number is `start`, with nothing pending.
    pub fn new(start: Lsn) -> (state: LsnState)
        ensures
            state@ == LsnView::fresh(start),
    {
        let state = LsnState { next: start, pending: Vec::new(), accepted: HashMap::new() };
        assert(state@ =~= LsnView::fresh(start));
        state
    }

    /// Creates an allocator for a log that was found to hold `recovered`: its
    /// first number is `start`, and the numbers of those records are pending. Their
    /// content is to come into the cache before any batch is taken.
    pub fn resume(start: Lsn, recovered: &[WalRecord]) -> (state: LsnState)
        ensures
            state@ == LsnView::fresh(start).noted_all(record_views(recovered@), start),
    {
        let ghost views = record_views(recovered@);
        let mut state = LsnState::new(start);
        let mut i: usize = 0;
        assert(state@ =~= LsnView::fresh(start).noted_all(views.take(0), start));
        while i < recovered.len()
            invariant
                i <= recovered@.len(),
                views == record_views(recovered@),
                state@ == LsnView::fresh(start).noted_all(views.take(i as int), start),
            decreases recovered@.len() - i,
        {
            let record = &recovered[i];
            state.note_logged(record.lsn, record.player_id, record.version, Some(start));
            assert(state@ =~= LsnView::fresh(start).noted_all(views.take(i + 1), start));
            i = i + 1;
        }
        assert(views.take(i as int) =~= views);
        state
    }

    /// The next number to be handed out.
    pub fn next_number(&self) -> (lsn: Lsn)
        ensures
            lsn == self@.next,
    {
        self.next
    }

    /// Reserves one number.
    pub fn alloc_one(&mut self) -> (lsn: Lsn)
        ensures
            lsn == old(self)@.next,
            final(self)@ == old(self)@.advanced(1),
    {
        let lsn: Lsn = self.next;
        self.next = lsn.wrapping_add(1);
        lsn
    }

    /// Reserves `count` numbers in a row and returns the first.
    pub fn alloc_block(&mut self, count: u64) -> (first: Lsn)
        ensures
            first == old(self)@.next,
            final(self)@ == old(self)@.advanced(count),
    {
        let first: Lsn = self.next;
        self.next = first.wrapping_add(count);
        first
    }

    /// Marks `lsn` as pending until it is drained.
    pub fn note_pending(&mut self, lsn: Lsn)
        ensures
            final(self)@ == old(self)@.noted(Owed { lsn, claim: Claim::Pinned }),
    {
        self.pending.push(Owed { lsn, claim: Claim::Pinned });
    }

    /// Marks `lsn`, the number of a record that is about to be logged, as pending
    /// until the store has its content. `since` is the lowest number of a batch
    /// that can bring it there, if the content is in the cache.
    pub fn note_logged(
        &mut self,
        lsn: Lsn,
        player_id: PlayerId,
        version: u64,
        since: Option<Lsn>,
    )
        ensures
            final(self)@ == old(self)@.noted(
                Owed { lsn, claim: Claim::State { player_id, version, since } },
            ),
    {
        self.pending.push(Owed { lsn, claim: Claim::State { player_id, version, since } });
    }

    /// The content of `requests` is in the cache: batches that are taken from now
    /// on, which are numbered `from` or higher, can bring it to the store.
    pub fn note_cached(&mut self, requests: &[WriteRequest], from: Lsn)
        ensures
            final(self)@ == old(self)@.after_caching(
                carried_numbers(request_views(requests@)),
                from,
            ),
    {
        let ghost numbers = carried_numbers(request_views(requests@));
        let mut carried: HashSet<Lsn> = HashSet::new();
        let mut i: usize = 0;
        while i < requests.len()
            invariant
                i <= requests@.len(),
                forall|lsn: Lsn| #[trigger]
                    carried@.contains(lsn) <==> carried_numbers(
                        request_views(requests@).take(i as int),
                    ).contains(lsn),
            decreases requests@.len() - i,
        {
            let ghost before = request_views(requests@).take(i as int);
            let ghost after = request_views(requests@).take(i + 1);
            carried.insert(requests[i].seq);
            proof {
                assert(after[i as int].seq == requests@[i as int].seq);
                assert forall|lsn: Lsn| carried_numbers(after).contains(lsn) <==> lsn
                    == requests@[i as int].seq || carried_numbers(before).contains(lsn) by {
                    if carried_numbers(before).contains(lsn) {
                        let k = choose|k: int|
                            0 <= k < before.len() && (#[trigger] before[k]).seq == lsn;
                        assert(after[k].seq == lsn);
                    }
                    if carried_numbers(after).contains(lsn) {
                        let k = choose|k: int|
                            0 <= k < after.len() && (#[trigger] after[k]).seq == lsn;
                        if k < i {
                            assert(before[k].seq == lsn);
                        }
                    }
                }
            }
            i = i + 1;
        }
        assert(request_views(requests@).take(i as int) =~= request_views(requests@));
        let ghost pending = self.pending@;
        let mut n: usize = 0;
        while n < self.pending.len()
            invariant
                n <= self.pending@.len(),
                self.pending@.len() == pending.len(),
                pending == old(self)@.pending,
                self.next == old(self).next,
                self.accepted == old(self).accepted,
                forall|lsn: Lsn| #[trigger] carried@.contains(lsn) <==> numbers.contains(lsn),
                forall|k: int|
                    0 <= k < n ==> #[trigger] self.pending@[k] == cached(pending[k], numbers, from),
                forall|k: int| n <= k < pending.len() ==> #[trigger] self.pending@[k] == pending[k],
            decreases pending.len() - n,
        {
            let owed = self.pending[n];
            let marked = match owed.claim {
                Claim::State { player_id, version, since: None } => {
                    if carried.contains(&owed.lsn) {
                        Owed {
                            lsn: owed.lsn,
                            claim: Claim::State { player_id, version, since: Some(from) },
                        }
                    } else {
                        owed
                    }
                },
                _ => owed,
            };
            self.pending.set(n, marked);
            n = n + 1;
        }
        assert(self@ =~= old(self)@.after_caching(numbers, from));
    }

    /// Marks `lsn` as no longer pending, if it was.
    pub fn note_drained(&mut self, lsn: Lsn)
        ensures
            final(self)@ == old(self)@.drained(lsn),
    {
        let mut kept: Vec<Owed> = Vec::new();
        let mut i: usize = 0;
        while i < self.pending.len()
            invariant
                i <= self.pending@.len(),
                *self == *old(self),
                kept@ == without(self.pending@.take(i as int), lsn),
            decreases self.pending@.len() - i,
        {
            assert(self.pending@.take(i + 1).drop_last() =~= self.pending@.take(i as int));
            if self.pending[i].lsn != lsn {
                kept.push(self.pending[i]);
            }
            i = i + 1;
        }
        assert(self.pending@.take(i as int) =~= self.pending@);
        self.pending = kept;
    }

    /// The store has accepted the batch numbered `at`, of `states`: the numbers
    /// whose content it has by now are no longer pending.
    pub fn note_accepted(&mut self, states: &[PlayerState], at: Lsn)
        ensures
            final(self)@ == old(self)@.after_accept(state_views(states@), at),
    {
        let mut held: HashMap<PlayerId, u64> = HashMap::new();
        assert(held@ =~= Map::empty());
        raise_all(&mut held, states);
        raise_all(&mut self.accepted, states);
        self.drop_settled(&held, at);
    }

    /// Forgets the pending numbers whose claim is settled.
    fn drop_settled(&mut self, held: &HashMap<PlayerId, u64>, at: Lsn)
        ensures
            final(self)@ == (LsnView {
                pending: unsettled(old(self)@.pending, old(self)@.accepted, held@, at),
                ..old(self)@
            }),
    {
        let mut kept: Vec<Owed> = Vec::new();
        let mut i: usize = 0;
        while i < self.pending.len()
            invariant
                i <= self.pending@.len(),
                *self == *old(self),
                kept@ == unsettled(self.pending@.take(i as int), self.accepted@, held@, at),
            decreases self.pending@.len() - i,
        {
            assert(self.pending@.take(i + 1).drop_last() =~= self.pending@.take(i as int));
            let settled = match self.pending[i].claim {
                Claim::Pinned => false,
                Claim::State { player_id, version, since } => {
                    let newer = match self.accepted.get(&player_id) {
                        Some(accepted) => *accepted > version,
                        None => false,
                    };
                    let taken_after = match since {
                        Some(since) => since <= at,
                        None => false,
                    };
                    let holds = match held.get(&player_id) {
                        Some(held) => *held >= version,
                        None => false,
                    };
                    newer || (taken_after && holds)
                },
            };
            if !settled {
                kept.push(self.pending[i]);
            }
            i = i + 1;
        }
        assert(self.pending@.take(i as int) =~= self.pending@);
        self.pending = kept;
    }

    /// How far a checkpoint up to `proposed` may safely go: strictly below the
    /// lowest pending number. `None` if nothing may be discarded.
    pub fn checkpoint_watermark(&self, proposed: Lsn) -> (safe: Option<Lsn>)
        ensures
            self@.watermark(proposed, safe),
            safe is None <==> self@.holds(0),
            safe matches Some(safe) ==> {
                &&& safe <= proposed
                &&& forall|i: int|
                    0 <= i < self@.pending.len() ==> safe < (#[trigger] self@.pending[i]).lsn
                &&& safe < proposed ==> self@.holds((safe + 1) as u64)
            },
    {
        if self.pending.len() == 0 {
            return Some(proposed);
        }
        let mut min: Lsn = self.pending[0].lsn;
        let mut i: usize = 1;
        assert(self@.pending[0].lsn == min);
        while i < self.pending.len()
            invariant
                1 <= i <= self.pending@.len(),
                self@.holds(min),
                forall|j: int| 0 <= j < i ==> min <= (#[trigger] self@.pending[j]).lsn,
            decreases self.pending@.len() - i,
        {
            if self.pending[i].lsn < min {
                min = self.pending[i].lsn;
                assert(self@.pending[i as int].lsn == min);
            }
            i = i + 1;
        }
        assert(self@.lowest(min));
        if min == 0 {
            None
        } else if proposed < min - 1 {
            Some(proposed)
        } else {
            Some(min - 1)
        }
    }
}

/// Numbers that are not settled stay pending.
pub proof fn lemma_unsettled_stays(
    pending: Seq<Owed>,
    accepted: Map<PlayerId, u64>,
    held: Map<PlayerId, u64>,
    at: Lsn,
    owed: Owed,
)
    requires
        pending.contains(owed),
        !settles(accepted, held, at, owed.claim),
    ensures
        unsettled(pending, accepted, held, at).contains(owed),
    decreases pending.len(),
{
    let init = pending.drop_last();
    let rest = unsettled(init, accepted, held, at);
    if pending.last() == owed {
        assert(rest.push(owed)[rest.len() as int] == owed);
    } else {
        let k = choose|k: int| 0 <= k < pending.len() && pending[k] == owed;
        assert(init[k] == owed);
        lemma_unsettled_stays(init, accepted, held, at, owed);
        let n = choose|n: int| 0 <= n < rest.len() && rest[n] == owed;
        assert(rest.push(pending.last())[n] == owed);
    }
}

/// What stays pending was pending, and is not settled.
pub proof fn lemma_settled_leaves(
    pending: Seq<Owed>,
    accepted: Map<PlayerId, u64>,
    held: Map<PlayerId, u64>,
    at: Lsn,
    owed: Owed,
)
    requires
        unsettled(pending, accepted, held, at).contains(owed),
    ensures
        !settles(accepted, held, at, owed.claim),
        pending.contains(owed),
    decreases pending.len(),
{
    let init = pending.drop_last();
    let rest = unsettled(init, accepted, held, at);
    let all = unsettled(pending, accepted, held, at);
    let k = choose|k: int| 0 <= k < all.len() && all[k] == owed;
    if k < rest.len() {
        assert(rest[k] == owed);
        lemma_settled_leaves(init, accepted, held, at, owed);
        let n = choose|n: int| 0 <= n < init.len() && init[n] == owed;
        assert(pending[n] == owed);
    } else {
        assert(pending[pending.len() - 1] == owed);
    }
}

/// What stays pending without a number was pending, and is another number.
pub proof fn lemma_drained_leaves(pending: Seq<Owed>, lsn: Lsn, owed: Owed)
    requires
        without(pending, lsn).contains(owed),
    ensures
        pending.contains(owed),
        owed.lsn != lsn,
    decreases pending.len(),
{
    let init = pending.drop_last();
    let rest = without(init, lsn);
    let all = without(pending, lsn);
    let k = choose|k: int| 0 <= k < all.len() && all[k] == owed;
    if k < rest.len() {
        assert(rest[k] == owed);
        lemma_drained_leaves(init, lsn, owed);
        let n = choose|n: int| 0 <= n < init.len() && init[n] == owed;
        assert(pending[n] == owed);
    } else {
        assert(pending[pending.len() - 1] == owed);
    }
}

proof fn lemma_raised_to(accepted: Map<PlayerId, u64>, states: Seq<StateView>, i: int)
    requires
        0 <= i < states.len(),
    ensures
        raised_all(accepted, states).dom().contains(states[i].player_id),
        raised_all(accepted, states)[states[i].player_id] >= states[i].version,
    decreases states.len(),
{
    if i < states.len() - 1 {
        lemma_raised_to(accepted, states.drop_last(), i);
    }
}

/// A raised version was there or is that of one of the states.
pub proof fn lemma_raised_by(accepted: Map<PlayerId, u64>, states: Seq<StateView>, id: PlayerId)
    requires
        raised_all(accepted, states).dom().contains(id),
    ensures
        ({
            let version = raised_all(accepted, states)[id];
            ||| accepted.dom().contains(id) && accepted[id] == version
            ||| exists|k: int|
                0 <= k < states.len() && (#[trigger] states[k]).player_id == id
                    && states[k].version == version
        }),
    decreases states.len(),
{
    if states.len() > 0 {
        let init = states.drop_last();
        let before = raised_all(accepted, init);
        let after = raised_all(accepted, states);
        if before.dom().contains(id) && before[id] == after[id] {
            lemma_raised_by(accepted, init, id);
            if !(accepted.dom().contains(id) && accepted[id] == after[id]) {
                let k = choose|k: int|
                    0 <= k < init.len() && (#[trigger] init[k]).player_id == id
                        && init[k].version == after[id];
                assert(states[k].player_id == id);
            }
        } else {
            assert(states[states.len() - 1].player_id == id);
        }
    }
}

/// Once the store has accepted a batch, no number waits for an older version of an
/// entity in it, and none whose content was in the cache when the batch was taken
/// waits for the same version: the records of an accepted batch, and all that they
/// supersede, hold up no checkpoint.
pub proof fn law_accepted_states_hold_up_nothing(
    before: LsnView,
    states: Seq<StateView>,
    at: Lsn,
    i: int,
    owed: Owed,
)
    requires
        0 <= i < states.len(),
        owed.claim matches Claim::State { player_id, version, since } && player_id
            == states[i].player_id && (version < states[i].version || (version
            == states[i].version && (since matches Some(since) && since <= at))),
    ensures
        !before.after_accept(states, at).pending.contains(owed),
{
    let after = before.after_accept(states, at);
    lemma_raised_to(before.accepted, states, i);
    lemma_raised_to(Map::empty(), states, i);
    if after.pending.contains(owed) {
        lemma_settled_leaves(
            before.pending,
            after.accepted,
            raised_all(Map::empty(), states),
            at,
            owed,
        );
    }
}

/// Numbers other than the drained one stay pending.
pub proof fn lemma_others_stay(pending: Seq<Owed>, lsn: Lsn, owed: Owed)
    requires
        pending.contains(owed),
        owed.lsn != lsn,
    ensures
        without(pending, lsn).contains(owed),
    decreases pending.len(),
{
    let init = pending.drop_last();
    let rest = without(init, lsn);
    if pending.last() == owed {
        assert(rest.push(owed)[rest.len() as int] == owed);
    } else {
        let k = choose|k: int| 0 <= k < pending.len() && pending[k] == owed;
        assert(init[k] == owed);
        lemma_others_stay(init, lsn, owed);
        let n = choose|n: int| 0 <= n < rest.len() && rest[n] == owed;
        assert(rest.push(pending.last())[n] == owed);
    }
}

/// A checkpoint at the watermark discards no pending record.
pub proof fn law_checkpoint_keeps_pending_records(
    state: LsnView,
    proposed: Lsn,
    safe: Lsn,
    records: Seq<RecordView>,
    i: int,
)
    requires
        state.watermark(proposed, Some(safe)),
        0 <= i < records.len(),
        state.holds(records[i].lsn),
    ensures
        safe <= proposed,
        survivors(records, safe).contains(records[i]),
{
    law_checkpoint_keeps_exactly_the_later_records(records, safe);
    let keep = |r: RecordView| r.lsn > safe;
    assert(keep(records[i]));
    records.lemma_filter_contains(keep, i);
}

/// The checkpoint that follows an accepted batch keeps every pending record whose
/// entity has not been accepted in a newer version, and which the batch cannot
/// carry: its content was not in the cache when the batch was taken, or the batch
/// does not hold its entity in its version. It does not matter what the store
/// holds in the same version from before, nor where else the content is: in the
/// ring, in the cache, in another batch, or nowhere.
pub proof fn law_accepted_batch_keeps_the_records_of_others(
    before: LsnView,
    states: Seq<StateView>,
    at: Lsn,
    proposed: Lsn,
    safe: Lsn,
    log: Seq<RecordView>,
    r: RecordView,
    since: Option<Lsn>,
)
    requires
        log.contains(r),
        before.pending.contains(claim_of(r, since)),
        !(before.accepted.dom().contains(r.player_id) && before.accepted[r.player_id]
            > r.version),
        forall|k: int|
            0 <= k < states.len() && (#[trigger] states[k]).player_id == r.player_id
                ==> states[k].version < r.version || (states[k].version == r.version && (since
                matches Some(since) ==> since > at)),
        before.after_accept(states, at).watermark(proposed, Some(safe)),
    ensures
        survivors(log, safe).contains(r),
{
    let after = before.after_accept(states, at);
    let held = raised_all(Map::empty(), states);
    let owed = claim_of(r, since);
    if after.accepted.dom().contains(r.player_id) {
        lemma_raised_by(before.accepted, states, r.player_id);
    }
    if held.dom().contains(r.player_id) {
        lemma_raised_by(Map::empty(), states, r.player_id);
    }
    lemma_unsettled_stays(before.pending, after.accepted, held, at, owed);
    let n = choose|n: int| 0 <= n < after.pending.len() && after.pending[n] == owed;
    let i = choose|i: int| 0 <= i < log.len() && log[i] == r;
    assert(after.pending[n].lsn == r.lsn);
    law_checkpoint_keeps_pending_records(after, proposed, safe, log, i);
}

/// Whether `states` is an allocator through its life, with a block of
/// `counts[k]` numbers handed out between its `k`-th state and the next, and
/// whatever else happens to its pending numbers.
pub open spec fn history(states: Seq<LsnView>, counts: Seq<u64>) -> bool {
    &&& states.len() == counts.len() + 1
    &&& forall|k: int|
        0 <= k < counts.len() ==> (#[trigger] states[k + 1]).next == states[k].next.wrapping_add(
            counts[k],
        )
}

/// How many numbers were handed out.
pub open spec fn total(counts: Seq<u64>) -> nat
    decreases counts.len(),
{
    if counts.len() == 0 {
        0
    } else {
        total(counts.drop_last()) + counts.last() as nat
    }
}

proof fn lemma_next_after(states: Seq<LsnView>, counts: Seq<u64>, k: int)
    requires
        history(states, counts),
        states[0].next + total(counts) <= u64::MAX,
        0 <= k <= counts.len(),
    ensures
        states[k].next == states[0].next + total(counts.take(k)),
        total(counts.take(k)) <= total(counts),
    decreases counts.len(),
{
    if k == counts.len() {
        assert(counts.take(k) =~= counts);
        if k > 0 {
            let init = counts.drop_last();
            let early = states.drop_last();
            assert(early[0] == states[0]);
            assert forall|i: int| 0 <= i < init.len() implies (#[trigger] early[i + 1]).next
                == early[i].next.wrapping_add(init[i]) by {
                assert(early[i + 1] == states[i + 1]);
            }
            lemma_next_after(early, init, k - 1);
            assert(init.take(k - 1) =~= init);
            assert(early[k - 1] == states[k - 1]);
            assert(states[(k - 1) + 1].next == states[k - 1].next.wrapping_add(counts[k - 1]));
        }
    } else {
        let init = counts.drop_last();
        let early = states.drop_last();
        assert(early[0] == states[0]);
        assert forall|i: int| 0 <= i < init.len() implies (#[trigger] early[i + 1]).next
            == early[i].next.wrapping_add(init[i]) by {
            assert(early[i + 1] == states[i + 1]);
        }
        lemma_next_after(early, init, k);
        assert(init.take(k) =~= counts.take(k));
        assert(early[k] == states[k]);
    }
}

/// As long as the 64-bit numbers last, every block that an allocator hands out
/// lies above all earlier ones, so that each number is handed out once and the
/// numbers rise; and it begins where the one before it ends, so that no number is
/// left out.
pub proof fn law_numbers_are_unique_and_rising(
    states: Seq<LsnView>,
    counts: Seq<u64>,
    i: int,
    j: int,
)
    requires
        history(states, counts),
        states[0].next + total(counts) <= u64::MAX,
        0 <= i < j <= counts.len(),
    ensures
        states[i].next + counts[i] <= states[j].next,
        j == i + 1 ==> states[i].next + counts[i] == states[j].next,
{
    lemma_next_after(states, counts, j);
    lemma_next_after(states, counts, i);
    lemma_total_grows(counts, i, j);
}

proof fn lemma_total_grows(counts: Seq<u64>, i: int, j: int)
    requires
        0 <= i < j <= counts.len(),
    ensures
        total(counts.take(i)) + counts[i] <= total(counts.take(j)),
    decreases j,
{
    assert(counts.take(j).drop_last() =~= counts.take(j - 1));
    if i + 1 < j {
        lemma_total_grows(counts, i, j - 1);
    }
}

/// A checkpoint goes as far as was proposed or to just below a pending number, and
/// reaches none; so it goes as far as it safely can. It is ruled out altogether only
/// by a pending number 0.
pub proof fn law_watermark_is_the_highest_safe_number(
    state: LsnView,
    proposed: Lsn,
    safe: Option<Lsn>,
)
    requires
        state.watermark(proposed, safe),
    ensures
        safe is None ==> state.holds(0),
        safe matches Some(safe) ==> {
            &&& safe <= proposed
            &&& forall|lsn: Lsn| #[trigger] state.holds(lsn) ==> safe < lsn
            &&& safe == proposed || state.holds((safe + 1) as u64)
        },
        state.pending.len() == 0 ==> safe == Some(proposed),
{
    if safe is Some && state.pending.len() > 0 {
        let s = safe->Some_0;
        let min = choose|min: Lsn| #[trigger]
            state.lowest(min) && min > 0 && s == if proposed < min - 1 {
                proposed as int
            } else {
                min - 1
            };
        assert forall|lsn: Lsn| #[trigger] state.holds(lsn) implies s < lsn by {
            let i = choose|i: int|
                0 <= i < state.pending.len() && (#[trigger] state.pending[i]).lsn == lsn;
            assert(min <= state.pending[i].lsn);
        }
    } else if state.pending.len() == 0 {
        assert forall|lsn: Lsn| !#[trigger] state.holds(lsn) by {}
    }
}

/// Marking a number makes it pending and no other; draining it makes it not pending,
/// and no other; numbers that are handed out are as many as asked for, and not
/// pending for that.
pub proof fn law_marking_and_draining(state: LsnView, owed: Owed, count: u64, other: Lsn)
    ensures
        state.noted(owed).holds(owed.lsn),
        other != owed.lsn ==> state.noted(owed).holds(other) == state.holds(other),
        !state.drained(owed.lsn).holds(owed.lsn),
        other != owed.lsn ==> state.drained(owed.lsn).holds(other) == state.holds(other),
        state.next + count <= u64::MAX ==> state.advanced(count).next == state.next + count,
        state.advanced(count).holds(other) == state.holds(other),
        state.noted(owed).next == state.next,
        state.drained(owed.lsn).next == state.next,
{
    let more = state.noted(owed);
    let n = state.pending.len() as int;
    assert(more.pending[n].lsn == owed.lsn);
    if state.holds(other) {
        let i = choose|i: int|
            0 <= i < state.pending.len() && (#[trigger] state.pending[i]).lsn == other;
        assert(more.pending[i].lsn == other);
        assert(state.pending.contains(state.pending[i]));
        if other != owed.lsn {
            lemma_others_stay(state.pending, owed.lsn, state.pending[i]);
            let less = without(state.pending, owed.lsn);
            let k = choose|k: int| 0 <= k < less.len() && less[k] == state.pending[i];
            assert(state.drained(owed.lsn).pending[k].lsn == other);
        }
    }
    if more.holds(other) && other != owed.lsn {
        let i = choose|i: int|
            0 <= i < more.pending.len() && (#[trigger] more.pending[i]).lsn == other;
        assert(state.pending[i].lsn == other);
    }
    let less = state.drained(owed.lsn);
    assert forall|i: int| 0 <= i < less.pending.len() implies (#[trigger] less.pending[i]).lsn
        != owed.lsn && state.holds(less.pending[i].lsn) by {
        assert(without(state.pending, owed.lsn).contains(less.pending[i]));
        lemma_drained_leaves(state.pending, owed.lsn, less.pending[i]);
        let k = choose|k: int| 0 <= k < state.pending.len() && state.pending[k] == less.pending[i];
        assert(state.pending[k].lsn == less.pending[i].lsn);
    }
}

/// Every number of logged or recovered records is pending once it is noted, and what
/// was pending stays so.
pub proof fn law_noted_records_are_pending(
    state: LsnView,
    records: Seq<RecordView>,
    since: Lsn,
    lsn: Lsn,
)
    ensures
        state.noted_all(records, since).holds(lsn) <==> state.holds(lsn) || exists|i: int|
            0 <= i < records.len() && (#[trigger] records[i]).lsn == lsn,
        state.noted_all(records, since).next == state.next,
{
    let more = state.noted_all(records, since);
    let n = state.pending.len() as int;
    if state.holds(lsn) {
        let i = choose|i: int|
            0 <= i < state.pending.len() && (#[trigger] state.pending[i]).lsn == lsn;
        assert(more.pending[i].lsn == lsn);
    }
    if exists|i: int| 0 <= i < records.len() && (#[trigger] records[i]).lsn == lsn {
        let i = choose|i: int| 0 <= i < records.len() && (#[trigger] records[i]).lsn == lsn;
        assert(more.pending[n + i].lsn == lsn);
    }
    if more.holds(lsn) {
        let i = choose|i: int|
            0 <= i < more.pending.len() && (#[trigger] more.pending[i]).lsn == lsn;
        if i < n {
            assert(state.pending[i].lsn == lsn);
        } else {
            assert(records[i - n].lsn == lsn);
        }
    }
}

/// A fresh allocator begins where it is told, with nothing pending.
pub proof fn law_fresh_allocator_has_nothing_pending(start: Lsn, lsn: Lsn)
    ensures
        LsnView::fresh(start).next == start,
        !LsnView::fresh(start).holds(lsn),
        LsnView::fresh(start).accepted.dom().is_empty(),
{
}

/// Whatever is pending under a number once a batch is accepted was pending under it
/// before, and is not settled.
proof fn lemma_still_held(
    before: LsnView,
    states: Seq<StateView>,
    at: Lsn,
    lsn: Lsn,
) -> (owed: Owed)
    requires
        before.after_accept(states, at).holds(lsn),
    ensures
        owed.lsn == lsn,
        before.pending.contains(owed),
        !settles(
            raised_all(before.accepted, states),
            raised_all(Map::empty(), states),
            at,
            owed.claim,
        ),
{
    let after = before.after_accept(states, at);
    let k = choose|k: int|
        0 <= k < after.pending.len() && (#[trigger] after.pending[k]).lsn == lsn;
    let owed = after.pending[k];
    assert(after.pending.contains(owed));
    lemma_settled_leaves(
        before.pending,
        raised_all(before.accepted, states),
        raised_all(Map::empty(), states),
        at,
        owed,
    );
    owed
}

/// A batch that is accepted settles its own numbers: they hold up no checkpoint any
/// more.
pub proof fn law_accepted_batch_settles_its_own_numbers(
    before: LsnView,
    records: Seq<RecordView>,
    states: Seq<StateView>,
    first: Lsn,
    i: int,
)
    requires
        records.len() == states.len(),
        forall|k: int|
            0 <= k < records.len() ==> (#[trigger] records[k]).player_id == states[k].player_id
                && records[k].version == states[k].version,
        0 <= i < records.len(),
        !before.holds(records[i].lsn),
    ensures
        !before.noted_all(records, first).after_accept(states, first).holds(records[i].lsn),
{
    let noted = before.noted_all(records, first);
    let lsn = records[i].lsn;
    if noted.after_accept(states, first).holds(lsn) {
        let owed = lemma_still_held(noted, states, first, lsn);
        let n = before.pending.len() as int;
        let k = choose|k: int| 0 <= k < noted.pending.len() && noted.pending[k] == owed;
        if k < n {
            assert(before.pending[k].lsn == lsn);
        } else {
            assert(owed == claim_of(records[k - n], Some(first)));
            assert(records[k - n].player_id == states[k - n].player_id);
            lemma_raised_to(Map::empty(), states, k - n);
        }
    }
}

/// A durable submission is settled in the ordinary way: once its request has come into
/// the cache, and a batch that was taken after that brings its entity in its version or
/// a newer one into the store, its number holds up no checkpoint any more.
pub proof fn law_drained_and_accepted_number_is_settled(
    before: LsnView,
    r: RecordView,
    requests: Seq<RequestView>,
    q: int,
    from: Lsn,
    states: Seq<StateView>,
    at: Lsn,
    i: int,
)
    requires
        !before.holds(r.lsn),
        0 <= q < requests.len(),
        requests[q].seq == r.lsn,
        from <= at,
        0 <= i < states.len(),
        states[i].player_id == r.player_id,
        states[i].version >= r.version,
    ensures
        !before.noted(claim_of(r, None)).after_caching(carried_numbers(requests), from).after_accept(
            states,
            at,
        ).holds(r.lsn),
{
    let noted = before.noted(claim_of(r, None));
    let numbers = carried_numbers(requests);
    let cached_now = noted.after_caching(numbers, from);
    assert(numbers.contains(r.lsn)) by {
        assert(requests[q].seq == r.lsn);
    }
    if cached_now.after_accept(states, at).holds(r.lsn) {
        let owed = lemma_still_held(cached_now, states, at, r.lsn);
        let n = before.pending.len() as int;
        let k = choose|k: int| 0 <= k < cached_now.pending.len() && cached_now.pending[k] == owed;
        assert(cached_now.pending[k] == cached(noted.pending[k], numbers, from));
        if k < n {
            assert(before.pending[k].lsn == r.lsn);
        } else {
            assert(owed == claim_of(r, Some(from)));
            lemma_raised_to(Map::empty(), states, i);
        }
    }
}

/// A number whose request has not come into the cache is settled by no batch of the same
/// version, whenever it was taken.
pub proof fn law_number_that_was_not_drained_waits(
    before: LsnView,
    r: RecordView,
    states: Seq<StateView>,
    at: Lsn,
)
    requires
        before.pending.contains(claim_of(r, None)),
        !(before.accepted.dom().contains(r.player_id) && before.accepted[r.player_id]
            > r.version),
        forall|k: int|
            0 <= k < states.len() && (#[trigger] states[k]).player_id == r.player_id
                ==> states[k].version <= r.version,
    ensures
        before.after_accept(states, at).holds(r.lsn),
{
    let accepted = raised_all(before.accepted, states);
    let held = raised_all(Map::empty(), states);
    let owed = claim_of(r, None);
    if accepted.dom().contains(r.player_id) {
        lemma_raised_by(before.accepted, states, r.player_id);
    }
    lemma_unsettled_stays(before.pending, accepted, held, at, owed);
    let after = before.after_accept(states, at);
    let n = choose|n: int| 0 <= n < after.pending.len() && after.pending[n] == owed;
    assert(after.pending[n].lsn == r.lsn);
}

} // verus!
