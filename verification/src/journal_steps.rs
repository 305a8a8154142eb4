//! What every moment of an engine's lives has in common, and why every event of
//! [`crate::journal`] keeps it.

use crate::api::{logged_states, request_of};
use crate::cache::{law_giving_back_keeps_entries, lemma_given_back_all_ok};
use crate::domain::{CacheView, Lsn, PlayerId, RecordView, RequestView, StateView};
use crate::flush::stamped;
use crate::journal::{
    journal_run, journal_start, journal_step, record_of, settled, settled_by, superseded, Journal,
    JournalEvent,
};
use crate::laws::stored;
use crate::lsn::{
    cached, carried, carried_numbers, claim_of, claims, lemma_drained_leaves, lemma_others_stay,
    lemma_raised_by, lemma_settled_leaves, lemma_unsettled_stays, outdated, raised_all, settles,
    LsnView, Owed,
};
use crate::store::{
    law_accepted_batch_is_stored, law_store_never_goes_back, law_table_stays_ok, table_ok,
    upserted_all,
};
use crate::wal::{law_checkpoint_keeps_exactly_the_later_records, survivors};
use vstd::prelude::*;

verus! {

/// An entry of the cache is what it was entered as.
pub open spec fn entry_ok(j: Journal, id: PlayerId) -> bool {
    &&& j.entered.dom().contains(id)
    &&& 0 <= j.entered[id] < j.inflow.len()
    &&& j.inflow[j.entered[id]] == j.cache.entries[id]
}

/// The content of a record that came in is in the cache, or something newer is, or
/// something of the same version that came in later.
pub open spec fn arrived_ok(j: Journal, r: RecordView) -> bool {
    &&& 0 <= j.arrived[r] < j.inflow.len()
    &&& j.inflow[j.arrived[r]] == r.state()
    &&& r.lsn < j.lsn.next
    &&& j.cache.entries.dom().contains(r.player_id)
    &&& {
        ||| j.cache.entries[r.player_id].version > r.version
        ||| j.cache.entries[r.player_id].version == r.version && j.entered[r.player_id]
            >= j.arrived[r]
    }
}

/// The cache and what came into it agree.
pub open spec fn inflow_ok(j: Journal) -> bool {
    &&& j.cache.ok()
    &&& forall|id: PlayerId| #[trigger] j.cache.entries.dom().contains(id) ==> entry_ok(j, id)
    &&& forall|r: RecordView| #[trigger] j.arrived.dom().contains(r) ==> arrived_ok(j, r)
}

/// The number of a record is pending, unless the record is done with.
pub open spec fn owed_ok(j: Journal, done: Set<RecordView>, r: RecordView) -> bool {
    done.contains(r) || (r.lsn < j.lsn.next && exists|since: Option<Lsn>| #[trigger]
        j.waits(r, since))
}

/// A batch can settle a claim only if the content of its record came in.
pub open spec fn claim_ok(j: Journal, r: RecordView, since: Option<Lsn>) -> bool {
    match since {
        None => j.live.contains(r),
        Some(x) => x <= j.lsn.next && j.arrived.dom().contains(r),
    }
}

/// A record of this life has its number for itself.
pub open spec fn live_ok(j: Journal, done: Set<RecordView>, r: RecordView) -> bool {
    &&& r.lsn < j.lsn.next
    &&& forall|w: RecordView| #[trigger]
        j.known(w) && w != r && w.lsn == r.lsn ==> done.contains(w)
}

/// A record whose append is not over is not written.
pub open spec fn open_ok(j: Journal, done: Set<RecordView>, r: RecordView) -> bool {
    &&& j.live.contains(r)
    &&& forall|w: RecordView| #[trigger]
        j.written.contains(w) && w.lsn == r.lsn ==> done.contains(w)
}

/// A queued request with the number of a record carries its content.
pub open spec fn queued_ok(j: Journal, done: Set<RecordView>, q: RequestView) -> bool {
    &&& q.seq < j.lsn.next
    &&& forall|r: RecordView| #[trigger]
        j.live.contains(r) && !done.contains(r) && r.lsn == q.seq ==> r == record_of(q)
}

/// A checkpoint that may be on its way reaches only records that are done with.
pub open spec fn granted_ok(j: Journal, done: Set<RecordView>, g: Lsn) -> bool {
    &&& g < j.lsn.next
    &&& forall|r: RecordView| #[trigger] j.known(r) && r.lsn <= g ==> done.contains(r)
}

/// The numbers and the records agree.
pub open spec fn numbers_ok(j: Journal, done: Set<RecordView>) -> bool {
    &&& forall|r: RecordView| #[trigger] j.known(r) ==> owed_ok(j, done, r)
    &&& forall|r: RecordView, since: Option<Lsn>| #[trigger]
        j.waits(r, since) ==> r.lsn < j.lsn.next && (j.known(r) && !done.contains(r) ==> claim_ok(
            j,
            r,
            since,
        ))
    &&& forall|r: RecordView| #[trigger] j.live.contains(r) ==> live_ok(j, done, r)
    &&& forall|r: RecordView| #[trigger] j.open.contains(r) ==> open_ok(j, done, r)
    &&& forall|r: RecordView| #[trigger]
        j.written.contains(r) ==> j.log.contains(r) || done.contains(r)
    &&& forall|i: int| 0 <= i < j.queued.len() ==> queued_ok(j, done, #[trigger] j.queued[i])
    &&& forall|g: Lsn| #[trigger] j.granted.contains(g) ==> granted_ok(j, done, g)
}

/// A batch holds what the cache held for a record when it was taken, if the
/// content of the record had come in by then.
pub open spec fn batch_covers(
    j: Journal,
    done: Set<RecordView>,
    at: Lsn,
    i: int,
    r: RecordView,
    x: Lsn,
) -> bool {
    let s = j.staged[at][i];
    j.waits(r, Some(x)) && j.known(r) && !done.contains(r) && x <= at && r.player_id
        == s.player_id ==> {
        ||| s.version > r.version
        ||| s.version == r.version && exists|n: int|
            j.arrived[r] <= n < j.inflow.len() && #[trigger] j.inflow[n] == s
    }
}

/// A batch that was taken is one of different entities, none of them newer than
/// the cache has.
pub open spec fn staged_ok(j: Journal, at: Lsn) -> bool {
    let states = j.staged[at];
    &&& states.len() > 0
    &&& at + states.len() <= j.lsn.next
    &&& forall|a: int, b: int|
        0 <= a < b < states.len() ==> (#[trigger] states[a]).player_id != (
        #[trigger] states[b]).player_id
    &&& forall|i: int|
        0 <= i < states.len() ==> j.cache.entries.dom().contains((#[trigger] states[i]).player_id)
            && states[i].version <= j.cache.entries[states[i].player_id].version
}

/// A record that a batch covers is done with once the store has taken it in.
pub open spec fn batch_settles(
    j: Journal,
    done: Set<RecordView>,
    at: Lsn,
    i: int,
    r: RecordView,
    x: Lsn,
) -> bool {
    j.waits(r, Some(x)) && j.known(r) && x <= at && r.player_id == j.staged[at][i].player_id
        ==> done.contains(r)
}

/// The batches, the records and the store agree.
pub open spec fn batches_ok(j: Journal, done: Set<RecordView>) -> bool {
    &&& table_ok(j.table)
    &&& forall|at: Lsn| #[trigger] j.staged.dom().contains(at) ==> staged_ok(j, at)
    &&& forall|at: Lsn, i: int, r: RecordView, x: Lsn|
        j.staged.dom().contains(at) && 0 <= i < j.staged[at].len() ==> #[trigger] batch_covers(
            j,
            done,
            at,
            i,
            r,
            x,
        )
    &&& j.taken_in.subset_of(j.staged.dom())
    &&& forall|at: Lsn, i: int|
        j.taken_in.contains(at) && 0 <= i < j.staged[at].len() ==> #[trigger] stored_state(
            j.table,
            j.staged[at][i],
        )
    &&& forall|at: Lsn, i: int, r: RecordView, x: Lsn|
        j.taken_in.contains(at) && 0 <= i < j.staged[at].len() ==> #[trigger] batch_settles(
            j,
            done,
            at,
            i,
            r,
            x,
        )
    &&& forall|id: PlayerId| #[trigger]
        j.lsn.accepted.dom().contains(id) ==> stored(j.table, id, j.lsn.accepted[id])
}

/// Whether the store holds a state in its version or a newer one.
pub open spec fn stored_state(table: Map<PlayerId, StateView>, s: StateView) -> bool {
    stored(table, s.player_id, s.version)
}

/// What every moment has in common.
pub open spec fn journal_ok(j: Journal, done: Set<RecordView>) -> bool {
    inflow_ok(j) && numbers_ok(j, done) && batches_ok(j, done)
}

/// Whether more records are done with after a moment: at least those that the
/// store has no more need of.
pub open spec fn goes_on(done: Set<RecordView>, later: Set<RecordView>, b: Journal) -> bool {
    &&& done.subset_of(later)
    &&& forall|r: RecordView| #[trigger] settled(b, r) ==> later.contains(r)
}

/// A step that touches none of this keeps the cache and what came into it.
proof fn lemma_inflow_kept(a: Journal, b: Journal)
    requires
        inflow_ok(a),
        b.cache.ok(),
        b.cache.entries == a.cache.entries,
        b.inflow == a.inflow,
        b.entered == a.entered,
        b.arrived == a.arrived,
        b.lsn.next >= a.lsn.next,
    ensures
        inflow_ok(b),
{
    assert forall|id: PlayerId| #[trigger] b.cache.entries.dom().contains(id) implies entry_ok(
        b,
        id,
    ) by {
        assert(entry_ok(a, id));
    }
    assert forall|r: RecordView| #[trigger] b.arrived.dom().contains(r) implies arrived_ok(b, r) by {
        assert(arrived_ok(a, r));
    }
}

/// What a queued request carries stays true.
proof fn lemma_queued_kept(
    a: Journal,
    done: Set<RecordView>,
    b: Journal,
    later: Set<RecordView>,
    q: RequestView,
)
    requires
        queued_ok(a, done, q),
        done.subset_of(later),
        b.lsn.next >= a.lsn.next,
        forall|r: RecordView| #[trigger]
            b.live.contains(r) && r.lsn < a.lsn.next ==> a.live.contains(r),
    ensures
        queued_ok(b, later, q),
{
    assert forall|r: RecordView| #[trigger]
        b.live.contains(r) && !later.contains(r) && r.lsn == q.seq implies r == record_of(q) by {
        assert(a.live.contains(r));
        assert(!done.contains(r));
    }
}

/// A step that leaves the records and the pending numbers as they are keeps them
/// in agreement.
proof fn lemma_numbers_kept(a: Journal, done: Set<RecordView>, b: Journal, later: Set<RecordView>)
    requires
        numbers_ok(a, done),
        done.subset_of(later),
        b.lsn.next >= a.lsn.next,
        b.lsn.pending == a.lsn.pending,
        b.live == a.live,
        b.open == a.open,
        b.written == a.written,
        forall|r: RecordView| #[trigger]
            b.written.contains(r) ==> b.log.contains(r) || later.contains(r),
        forall|i: int| 0 <= i < b.queued.len() ==> queued_ok(b, later, #[trigger] b.queued[i]),
        forall|g: Lsn| #[trigger] b.granted.contains(g) ==> granted_ok(b, later, g),
        a.arrived.dom().subset_of(b.arrived.dom()),
    ensures
        numbers_ok(b, later),
{
    assert forall|r: RecordView| #[trigger] b.known(r) implies owed_ok(b, later, r) by {
        assert(a.known(r));
        assert(owed_ok(a, done, r));
        if !done.contains(r) {
            let since = choose|since: Option<Lsn>| #[trigger] a.waits(r, since);
            assert(b.waits(r, since));
        }
    }
    assert forall|r: RecordView, since: Option<Lsn>| #[trigger]
        b.waits(r, since) implies r.lsn < b.lsn.next && (b.known(r) && !later.contains(r)
        ==> claim_ok(b, r, since)) by {
        assert(a.waits(r, since));
        if b.known(r) && !later.contains(r) {
            assert(a.known(r));
            assert(!done.contains(r));
            assert(claim_ok(a, r, since));
        }
    }
    assert forall|r: RecordView| #[trigger] b.live.contains(r) implies live_ok(b, later, r) by {
        assert(live_ok(a, done, r));
        assert forall|w: RecordView| #[trigger]
            b.known(w) && w != r && w.lsn == r.lsn implies later.contains(w) by {
            assert(a.known(w));
        }
    }
    assert forall|r: RecordView| #[trigger] b.open.contains(r) implies open_ok(b, later, r) by {
        assert(open_ok(a, done, r));
    }
}

proof fn lemma_all_queued_kept(
    a: Journal,
    done: Set<RecordView>,
    b: Journal,
    later: Set<RecordView>,
)
    requires
        numbers_ok(a, done),
        done.subset_of(later),
        b.lsn.next >= a.lsn.next,
        forall|r: RecordView| #[trigger]
            b.live.contains(r) && r.lsn < a.lsn.next ==> a.live.contains(r),
    ensures
        forall|i: int| 0 <= i < a.queued.len() ==> queued_ok(b, later, #[trigger] a.queued[i]),
{
    assert forall|i: int| 0 <= i < a.queued.len() implies queued_ok(
        b,
        later,
        #[trigger] a.queued[i],
    ) by {
        lemma_queued_kept(a, done, b, later, a.queued[i]);
    }
}

/// Watermarks that were granted stay good while new records only take new
/// numbers.
proof fn lemma_granted_kept(a: Journal, done: Set<RecordView>, b: Journal, later: Set<RecordView>)
    requires
        numbers_ok(a, done),
        done.subset_of(later),
        b.lsn.next >= a.lsn.next,
        forall|r: RecordView| #[trigger] b.known(r) && r.lsn < a.lsn.next ==> a.known(r),
    ensures
        forall|g: Lsn| #[trigger] a.granted.contains(g) ==> granted_ok(b, later, g),
{
    assert forall|g: Lsn| #[trigger] a.granted.contains(g) implies granted_ok(b, later, g) by {
        assert(granted_ok(a, done, g));
        assert forall|r: RecordView| #[trigger] b.known(r) && r.lsn <= g implies later.contains(
            r,
        ) by {
            assert(a.known(r));
        }
    }
}

/// Whether the cache and what came into it only grew.
spec fn inflow_grew(a: Journal, b: Journal) -> bool {
    &&& a.inflow.len() <= b.inflow.len()
    &&& forall|n: int| 0 <= n < a.inflow.len() ==> b.inflow[n] == #[trigger] a.inflow[n]
    &&& forall|r: RecordView| #[trigger]
        a.arrived.dom().contains(r) ==> b.arrived.dom().contains(r) && b.arrived[r]
            == a.arrived[r]
    &&& forall|id: PlayerId| #[trigger]
        a.cache.entries.dom().contains(id) ==> b.cache.entries.dom().contains(id)
            && b.cache.entries[id].version >= a.cache.entries[id].version
}

/// Whether a batch can settle nothing in `b` that it could not in `a`.
spec fn no_new_claims(a: Journal, b: Journal) -> bool {
    forall|r: RecordView, x: Lsn|
        #![trigger b.waits(r, Some(x))]
        b.waits(r, Some(x)) && b.known(r) && x < a.lsn.next ==> a.waits(r, Some(x)) && a.known(r)
}

/// A step that takes no batch and leaves the store as it is keeps the batches in
/// agreement.
proof fn lemma_batches_kept(a: Journal, done: Set<RecordView>, b: Journal, later: Set<RecordView>)
    requires
        inflow_ok(a),
        numbers_ok(a, done),
        batches_ok(a, done),
        done.subset_of(later),
        b.lsn.next >= a.lsn.next,
        b.lsn.accepted == a.lsn.accepted,
        b.staged == a.staged,
        b.taken_in == a.taken_in,
        b.table == a.table,
        inflow_grew(a, b),
        no_new_claims(a, b),
    ensures
        batches_ok(b, later),
{
    assert forall|at: Lsn| #[trigger] b.staged.dom().contains(at) implies staged_ok(b, at) by {
        assert(staged_ok(a, at));
    }
    assert forall|at: Lsn, i: int, r: RecordView, x: Lsn|
        b.staged.dom().contains(at) && 0 <= i < b.staged[at].len() implies #[trigger] batch_covers(
        b,
        later,
        at,
        i,
        r,
        x,
    ) by {
        lemma_cover_kept(a, done, b, later, at, i, r, x);
    }
    assert forall|at: Lsn, i: int, r: RecordView, x: Lsn|
        b.taken_in.contains(at) && 0 <= i < b.staged[at].len() implies #[trigger] batch_settles(
        b,
        later,
        at,
        i,
        r,
        x,
    ) by {
        assert(staged_ok(a, at));
        assert(batch_settles(a, done, at, i, r, x));
    }
    assert forall|at: Lsn, i: int|
        b.taken_in.contains(at) && 0 <= i < b.staged[at].len() implies #[trigger] stored_state(
        b.table,
        b.staged[at][i],
    ) by {
        assert(stored_state(a.table, a.staged[at][i]));
    }
}

proof fn lemma_cover_kept(
    a: Journal,
    done: Set<RecordView>,
    b: Journal,
    later: Set<RecordView>,
    at: Lsn,
    i: int,
    r: RecordView,
    x: Lsn,
)
    requires
        inflow_ok(a),
        numbers_ok(a, done),
        batches_ok(a, done),
        done.subset_of(later),
        a.staged.dom().contains(at),
        0 <= i < a.staged[at].len(),
        b.staged[at] == a.staged[at],
        inflow_grew(a, b),
        no_new_claims(a, b),
    ensures
        batch_covers(b, later, at, i, r, x),
{
    let s = b.staged[at][i];
    assert(staged_ok(a, at));
    if b.waits(r, Some(x)) && b.known(r) && !later.contains(r) && x <= at && r.player_id
        == s.player_id {
        assert(a.waits(r, Some(x)) && a.known(r));
        assert(!done.contains(r));
        assert(claim_ok(a, r, Some(x)));
        assert(batch_covers(a, done, at, i, r, x));
        if s.version == r.version {
            let n = choose|n: int|
                a.arrived[r] <= n < a.inflow.len() && #[trigger] a.inflow[n] == s;
            assert(arrived_ok(a, r));
            assert(b.inflow[n] == s);
        }
    }
}

proof fn lemma_submit(
    a: Journal,
    done: Set<RecordView>,
    request: RequestView,
    room: bool,
    b: Journal,
    later: Set<RecordView>,
)
    requires
        journal_ok(a, done),
        journal_step(a, JournalEvent::Submit(request, room), b),
        goes_on(done, later, b),
    ensures
        journal_ok(b, later),
{
    lemma_inflow_kept(a, b);
    lemma_all_queued_kept(a, done, b, later);
    lemma_granted_kept(a, done, b, later);
    assert forall|i: int| 0 <= i < b.queued.len() implies queued_ok(
        b,
        later,
        #[trigger] b.queued[i],
    ) by {
        if i < a.queued.len() {
            assert(b.queued[i] == a.queued[i]);
        } else {
            assert forall|r: RecordView| #[trigger] b.live.contains(r) implies r.lsn
                != request.seq by {
                assert(live_ok(a, done, r));
            }
        }
    }
    lemma_numbers_kept(a, done, b, later);
    lemma_batches_kept(a, done, b, later);
}

proof fn lemma_finish(
    a: Journal,
    done: Set<RecordView>,
    record: RecordView,
    room: bool,
    b: Journal,
    later: Set<RecordView>,
)
    requires
        journal_ok(a, done),
        journal_step(a, JournalEvent::Finish(record, room), b),
        goes_on(done, later, b),
    ensures
        journal_ok(b, later),
{
    lemma_inflow_kept(a, b);
    lemma_all_queued_kept(a, done, b, later);
    lemma_granted_kept(a, done, b, later);
    assert(live_ok(a, done, record));
    assert forall|i: int| 0 <= i < b.queued.len() implies queued_ok(
        b,
        later,
        #[trigger] b.queued[i],
    ) by {
        if i < a.queued.len() {
            assert(b.queued[i] == a.queued[i]);
        } else {
            assert(record_of(request_of(record)) == record);
            assert forall|r: RecordView| #[trigger]
                b.live.contains(r) && !later.contains(r) && r.lsn == record.lsn implies r
                == record by {
                assert(a.known(r));
            }
        }
    }
    lemma_numbers_kept(a, done, b, later);
    lemma_batches_kept(a, done, b, later);
}

proof fn lemma_give_back(
    a: Journal,
    done: Set<RecordView>,
    at: Lsn,
    b: Journal,
    later: Set<RecordView>,
)
    requires
        journal_ok(a, done),
        journal_step(a, JournalEvent::GiveBack(at), b),
        goes_on(done, later, b),
    ensures
        journal_ok(b, later),
{
    assert(staged_ok(a, at));
    law_giving_back_keeps_entries(a.cache, a.staged[at]);
    lemma_given_back_all_ok(a.cache, a.staged[at]);
    lemma_inflow_kept(a, b);
    lemma_all_queued_kept(a, done, b, later);
    lemma_granted_kept(a, done, b, later);
    lemma_numbers_kept(a, done, b, later);
    lemma_batches_kept(a, done, b, later);
}

/// The content of a record comes into the cache.
proof fn lemma_arrive(j: Journal, r: RecordView)
    requires
        inflow_ok(j),
        r.lsn < j.lsn.next,
    ensures
        inflow_ok(j.arrive(r)),
        j.arrive(r).arrived.dom().contains(r),
        inflow_grew(j, j.arrive(r)),
{
    let b = j.arrive(r);
    assert forall|id: PlayerId| #[trigger] b.cache.entries.dom().contains(id) implies entry_ok(
        b,
        id,
    ) by {
        if j.cache.entries.dom().contains(id) {
            assert(entry_ok(j, id));
        }
    }
    assert forall|w: RecordView| #[trigger] b.arrived.dom().contains(w) implies arrived_ok(b, w) by {
        if j.arrived.dom().contains(w) {
            assert(arrived_ok(j, w));
            assert(entry_ok(j, w.player_id));
        } else if j.cache.entries.dom().contains(w.player_id) {
            assert(entry_ok(j, w.player_id));
        }
    }
}

/// Marking numbers as cached leaves what they wait for as it is otherwise.
proof fn lemma_cached_claims(v: LsnView, numbers: Set<Lsn>, from: Lsn, r: RecordView)
    ensures
        forall|since: Option<Lsn>| #[trigger]
            v.pending.contains(claim_of(r, since)) ==> v.after_caching(
                numbers,
                from,
            ).pending.contains(
                claim_of(
                    r,
                    if since is None && numbers.contains(r.lsn) {
                        Some(from)
                    } else {
                        since
                    },
                ),
            ),
        forall|since: Option<Lsn>| #[trigger]
            v.after_caching(numbers, from).pending.contains(claim_of(r, since))
                ==> v.pending.contains(claim_of(r, since)) || (since == Some(from)
                && numbers.contains(r.lsn) && v.pending.contains(claim_of(r, None))),
        v.after_caching(numbers, from).pending.contains(claim_of(r, None)) ==> !numbers.contains(
            r.lsn,
        ),
{
    let after = v.after_caching(numbers, from).pending;
    assert forall|since: Option<Lsn>| #[trigger]
        v.pending.contains(claim_of(r, since)) implies after.contains(
        claim_of(
            r,
            if since is None && numbers.contains(r.lsn) {
                Some(from)
            } else {
                since
            },
        ),
    ) by {
        let k = choose|k: int| 0 <= k < v.pending.len() && v.pending[k] == claim_of(r, since);
        assert(after[k] == cached(v.pending[k], numbers, from));
    }
    assert forall|since: Option<Lsn>| #[trigger] after.contains(claim_of(r, since)) implies (
    v.pending.contains(claim_of(r, since)) || (since == Some(from) && numbers.contains(r.lsn)
        && v.pending.contains(claim_of(r, None)))) && (since is None ==> !numbers.contains(
        r.lsn,
    )) by {
        let k = choose|k: int| 0 <= k < after.len() && after[k] == claim_of(r, since);
        assert(after[k] == cached(v.pending[k], numbers, from));
        assert(v.pending.contains(v.pending[k]));
    }
}

proof fn lemma_drain(a: Journal, done: Set<RecordView>, b: Journal, later: Set<RecordView>)
    requires
        journal_ok(a, done),
        journal_step(a, JournalEvent::Drain, b),
        goes_on(done, later, b),
    ensures
        journal_ok(b, later),
{
    let q = a.queued[0];
    let numbers = carried_numbers(seq![q]);
    assert(queued_ok(a, done, a.queued[0]));
    assert forall|lsn: Lsn| numbers.contains(lsn) <==> lsn == q.seq by {
        assert(seq![q][0].seq == q.seq);
    }
    lemma_arrive(a, record_of(q));
    assert(inflow_ok(b)) by {
        lemma_inflow_kept(a.arrive(record_of(q)), b);
    }
    lemma_all_queued_kept(a, done, b, later);
    lemma_granted_kept(a, done, b, later);
    assert forall|r: RecordView| #[trigger] b.known(r) implies owed_ok(b, later, r) by {
        assert(a.known(r));
        assert(owed_ok(a, done, r));
        if !done.contains(r) {
            lemma_cached_claims(a.lsn, numbers, a.lsn.next, r);
            let since = choose|since: Option<Lsn>| #[trigger] a.waits(r, since);
            assert(b.waits(
                r,
                if since is None && numbers.contains(r.lsn) {
                    Some(a.lsn.next)
                } else {
                    since
                },
            ));
        }
    }
    assert forall|r: RecordView, since: Option<Lsn>| #[trigger]
        b.waits(r, since) implies r.lsn < b.lsn.next && (b.known(r) && !later.contains(r)
        ==> claim_ok(b, r, since)) by {
        lemma_cached_claims(a.lsn, numbers, a.lsn.next, r);
        assert(a.waits(r, since) || a.waits(r, None));
        if b.known(r) && !later.contains(r) {
            assert(a.known(r));
            assert(!done.contains(r));
            if a.waits(r, since) {
                assert(claim_ok(a, r, since));
            } else {
                assert(claim_ok(a, r, None));
                assert(r == record_of(q));
            }
        }
    }
    assert forall|r: RecordView| #[trigger] b.live.contains(r) implies live_ok(b, later, r) by {
        assert(live_ok(a, done, r));
        assert forall|w: RecordView| #[trigger]
            b.known(w) && w != r && w.lsn == r.lsn implies later.contains(w) by {
            assert(a.known(w));
        }
    }
    assert forall|r: RecordView| #[trigger] b.open.contains(r) implies open_ok(b, later, r) by {
        assert(open_ok(a, done, r));
    }
    assert forall|i: int| 0 <= i < b.queued.len() implies queued_ok(
        b,
        later,
        #[trigger] b.queued[i],
    ) by {
        assert(b.queued[i] == a.queued[i + 1]);
    }
    assert(no_new_claims(a, b)) by {
        assert forall|r: RecordView, x: Lsn|
            #![trigger b.waits(r, Some(x))]
            b.waits(r, Some(x)) && b.known(r) && x < a.lsn.next implies a.waits(r, Some(x))
            && a.known(r) by {
            lemma_cached_claims(a.lsn, numbers, a.lsn.next, r);
        }
    }
    lemma_batches_kept(a, done, b, later);
}

/// New records take numbers that are not in use.
proof fn lemma_numbered(
    a: Journal,
    done: Set<RecordView>,
    fresh: Seq<RecordView>,
    since: Option<Lsn>,
    b: Journal,
    later: Set<RecordView>,
)
    requires
        numbers_ok(a, done),
        done.subset_of(later),
        a.lsn.next + fresh.len() <= u64::MAX,
        forall|i: int| 0 <= i < fresh.len() ==> (#[trigger] fresh[i]).lsn == a.lsn.next + i,
        b.lsn.next == a.lsn.next + fresh.len(),
        b.lsn.pending.len() == a.lsn.pending.len() + fresh.len(),
        forall|k: int|
            0 <= k < a.lsn.pending.len() ==> b.lsn.pending[k] == #[trigger] a.lsn.pending[k],
        forall|i: int|
            0 <= i < fresh.len() ==> b.lsn.pending[a.lsn.pending.len() + i] == claim_of(
                #[trigger] fresh[i],
                since,
            ),
        since is Some ==> since == Some(a.lsn.next) && forall|i: int|
            0 <= i < fresh.len() ==> b.arrived.dom().contains(#[trigger] fresh[i]),
        b.live == a.live.union(fresh.to_set()),
        b.open == a.open.union(fresh.to_set()),
        b.written == a.written,
        b.log == a.log,
        b.queued == a.queued,
        b.granted == a.granted,
        a.arrived.dom().subset_of(b.arrived.dom()),
    ensures
        numbers_ok(b, later),
        no_new_claims(a, b),
{
    let m = a.lsn.pending.len() as int;
    assert forall|r: RecordView| #[trigger] b.live.contains(r) implies a.live.contains(r)
        || fresh.contains(r) by {}
    assert forall|r: RecordView| #[trigger] fresh.contains(r) implies a.lsn.next <= r.lsn
        && r.lsn < b.lsn.next && b.waits(r, since) && b.live.contains(r) by {
        let k = choose|k: int| 0 <= k < fresh.len() && fresh[k] == r;
        assert(b.lsn.pending[m + k] == claim_of(fresh[k], since));
        assert(fresh.to_set().contains(r));
    }
    assert forall|r: RecordView, s: Option<Lsn>| #[trigger]
        b.waits(r, s) implies a.waits(r, s) || (s == since && a.lsn.next <= r.lsn < b.lsn.next) by {
        let k = choose|k: int| 0 <= k < b.lsn.pending.len() && b.lsn.pending[k] == claim_of(r, s);
        if k < m {
            assert(a.lsn.pending[k] == claim_of(r, s));
        } else {
            assert(b.lsn.pending[m + (k - m)] == claim_of(fresh[k - m], since));
        }
    }
    assert forall|r: RecordView, s: Option<Lsn>| #[trigger] a.waits(r, s) implies b.waits(r, s) by {
        let k = choose|k: int| 0 <= k < m && a.lsn.pending[k] == claim_of(r, s);
        assert(b.lsn.pending[k] == claim_of(r, s));
    }
    assert forall|r: RecordView| #[trigger] b.known(r) && !fresh.contains(r) implies a.known(r) by {}
    assert forall|r: RecordView| #[trigger] a.known(r) && !done.contains(r) implies r.lsn
        < a.lsn.next by {
        assert(owed_ok(a, done, r));
    }
    assert forall|r: RecordView| #[trigger] b.known(r) implies owed_ok(b, later, r) by {
        if fresh.contains(r) {
            assert(b.waits(r, since));
        } else {
            assert(owed_ok(a, done, r));
            if !done.contains(r) {
                let s = choose|s: Option<Lsn>| #[trigger] a.waits(r, s);
                assert(b.waits(r, s));
            }
        }
    }
    assert forall|r: RecordView, s: Option<Lsn>| #[trigger] b.waits(r, s) implies r.lsn
        < b.lsn.next && (b.known(r) && !later.contains(r) ==> claim_ok(b, r, s)) by {
        if b.known(r) && !later.contains(r) {
            assert(!done.contains(r));
            if a.waits(r, s) {
                assert(a.known(r));
                assert(claim_ok(a, r, s));
            } else {
                if !fresh.contains(r) {
                    assert(a.known(r));
                }
                let k = choose|k: int| 0 <= k < fresh.len() && fresh[k] == r;
                assert(fresh[k] == r);
            }
        }
    }
    assert forall|r: RecordView| #[trigger] b.live.contains(r) implies live_ok(b, later, r) by {
        if a.live.contains(r) {
            assert(live_ok(a, done, r));
        }
        assert forall|w: RecordView| #[trigger]
            b.known(w) && w != r && w.lsn == r.lsn implies later.contains(w) by {
            if fresh.contains(w) {
                assert(fresh.contains(r));
                let k = choose|k: int| 0 <= k < fresh.len() && fresh[k] == r;
                let n = choose|n: int| 0 <= n < fresh.len() && fresh[n] == w;
                assert(k == n);
            } else {
                assert(a.known(w));
            }
        }
    }
    assert forall|r: RecordView| #[trigger] b.open.contains(r) implies open_ok(b, later, r) by {
        if a.open.contains(r) {
            assert(open_ok(a, done, r));
        } else {
            assert(fresh.contains(r));
            assert forall|w: RecordView| #[trigger]
                b.written.contains(w) && w.lsn == r.lsn implies later.contains(w) by {
                assert(a.known(w));
            }
        }
    }
    lemma_all_queued_kept(a, done, b, later);
    lemma_granted_kept(a, done, b, later);
    assert(no_new_claims(a, b)) by {
        assert forall|r: RecordView, x: Lsn|
            #![trigger b.waits(r, Some(x))]
            b.waits(r, Some(x)) && b.known(r) && x < a.lsn.next implies a.waits(r, Some(x))
            && a.known(r) by {}
    }
}

proof fn lemma_begin(
    a: Journal,
    done: Set<RecordView>,
    record: RecordView,
    b: Journal,
    later: Set<RecordView>,
)
    requires
        journal_ok(a, done),
        journal_step(a, JournalEvent::Begin(record), b),
        goes_on(done, later, b),
    ensures
        journal_ok(b, later),
{
    let fresh = seq![record];
    assert forall|r: RecordView| #[trigger] fresh.to_set().contains(r) <==> r == record by {
        assert(fresh[0] == record);
    }
    assert(a.open.insert(record) =~= a.open.union(fresh.to_set()));
    assert(a.live.insert(record) =~= a.live.union(fresh.to_set()));
    lemma_inflow_kept(a, b);
    lemma_numbered(a, done, fresh, None, b, later);
    lemma_batches_kept(a, done, b, later);
}

proof fn lemma_stage(
    a: Journal,
    done: Set<RecordView>,
    states: Seq<StateView>,
    b: Journal,
    later: Set<RecordView>,
)
    requires
        journal_ok(a, done),
        journal_step(a, JournalEvent::Stage(states), b),
        goes_on(done, later, b),
    ensures
        journal_ok(b, later),
{
    let first = a.lsn.next;
    let fresh = stamped(states, first);
    assert forall|i: int| 0 <= i < states.len() implies a.cache.entries.dom().contains(
        (#[trigger] states[i]).player_id,
    ) && states[i] == a.cache.entries[states[i].player_id] by {
        assert(a.cache.dirty.contains(states[i].player_id));
    }
    assert forall|r: RecordView| #[trigger] fresh.contains(r) implies r.lsn >= first && r.lsn
        < b.lsn.next && a.cache.entries.dom().contains(r.player_id)
        && a.cache.entries[r.player_id] == r.state() && !a.arrived.dom().contains(r) by {
        let k = choose|k: int| 0 <= k < fresh.len() && fresh[k] == r;
        assert(states[k] == r.state());
        if a.arrived.dom().contains(r) {
            assert(arrived_ok(a, r));
        }
    }
    assert forall|i: int| 0 <= i < fresh.len() implies b.arrived.dom().contains(
        #[trigger] fresh[i],
    ) by {
        assert(fresh.contains(fresh[i]));
    }
    assert(b.cache.dirty.subset_of(a.cache.dirty));
    assert forall|id: PlayerId| #[trigger] b.cache.entries.dom().contains(id) implies entry_ok(
        b,
        id,
    ) by {
        assert(entry_ok(a, id));
    }
    assert forall|r: RecordView| #[trigger] b.arrived.dom().contains(r) implies arrived_ok(b, r) by {
        if fresh.contains(r) {
            assert(entry_ok(a, r.player_id));
        } else {
            assert(arrived_ok(a, r));
        }
    }
    lemma_numbered(a, done, fresh, Some(first), b, later);
    lemma_staged_batch(a, done, states, b, later);
}

/// The new batch covers every record whose content came in before it was taken.
proof fn lemma_staged_batch(
    a: Journal,
    done: Set<RecordView>,
    states: Seq<StateView>,
    b: Journal,
    later: Set<RecordView>,
)
    requires
        journal_ok(a, done),
        journal_step(a, JournalEvent::Stage(states), b),
        done.subset_of(later),
        inflow_ok(b),
        numbers_ok(b, later),
        no_new_claims(a, b),
    ensures
        batches_ok(b, later),
{
    let first = a.lsn.next;
    assert(inflow_grew(a, b)) by {
        assert forall|r: RecordView| #[trigger]
            a.arrived.dom().contains(r) implies b.arrived.dom().contains(r) && b.arrived[r]
            == a.arrived[r] by {
            assert(arrived_ok(a, r));
            if stamped(states, first).contains(r) {
                let k = choose|k: int|
                    0 <= k < states.len() && stamped(states, first)[k] == r;
            }
        }
    }
    assert forall|at: Lsn| #[trigger] b.staged.dom().contains(at) implies staged_ok(b, at) by {
        if at != first {
            assert(staged_ok(a, at));
        } else {
            assert forall|i: int| 0 <= i < states.len() implies b.cache.entries.dom().contains(
                (#[trigger] states[i]).player_id,
            ) && states[i].version <= b.cache.entries[states[i].player_id].version by {
                assert(a.cache.dirty.contains(states[i].player_id));
            }
        }
    }
    assert(!a.staged.dom().contains(first)) by {
        if a.staged.dom().contains(first) {
            assert(staged_ok(a, first));
        }
    }
    assert forall|at: Lsn, i: int, r: RecordView, x: Lsn|
        b.staged.dom().contains(at) && 0 <= i < b.staged[at].len() implies #[trigger] batch_covers(
        b,
        later,
        at,
        i,
        r,
        x,
    ) by {
        if at != first {
            lemma_cover_kept(a, done, b, later, at, i, r, x);
        } else {
            let s = states[i];
            if b.waits(r, Some(x)) && b.known(r) && !later.contains(r) && r.player_id
                == s.player_id {
                assert(claim_ok(b, r, Some(x)));
                assert(arrived_ok(b, r));
                assert(a.cache.dirty.contains(states[i].player_id));
                assert(b.cache.entries[r.player_id] == s);
                assert(entry_ok(b, r.player_id));
                assert(b.inflow[b.entered[r.player_id]] == s);
            }
        }
    }
    assert forall|at: Lsn, i: int, r: RecordView, x: Lsn|
        b.taken_in.contains(at) && 0 <= i < b.staged[at].len() implies #[trigger] batch_settles(
        b,
        later,
        at,
        i,
        r,
        x,
    ) by {
        assert(a.staged.dom().contains(at));
        assert(staged_ok(a, at));
        assert(batch_settles(a, done, at, i, r, x));
    }
    assert forall|at: Lsn, i: int|
        b.taken_in.contains(at) && 0 <= i < b.staged[at].len() implies #[trigger] stored_state(
        b.table,
        b.staged[at][i],
    ) by {
        assert(a.staged.dom().contains(at));
        assert(stored_state(a.table, a.staged[at][i]));
    }
}

proof fn lemma_logged(
    a: Journal,
    done: Set<RecordView>,
    record: RecordView,
    b: Journal,
    later: Set<RecordView>,
)
    requires
        journal_ok(a, done),
        journal_step(a, JournalEvent::Logged(record), b),
        goes_on(done, later, b),
    ensures
        journal_ok(b, later),
{
    assert(open_ok(a, done, record));
    assert(b.log[a.log.len() as int] == record);
    assert forall|r: RecordView| #[trigger] a.log.contains(r) implies b.log.contains(r) by {
        let k = choose|k: int| 0 <= k < a.log.len() && a.log[k] == r;
        assert(b.log[k] == r);
    }
    assert forall|r: RecordView| #[trigger] b.known(r) <==> a.known(r) by {}
    lemma_inflow_kept(a, b);
    lemma_all_queued_kept(a, done, b, later);
    lemma_granted_kept(a, done, b, later);
    assert forall|r: RecordView| #[trigger] b.known(r) implies owed_ok(b, later, r) by {
        assert(a.known(r));
        assert(owed_ok(a, done, r));
        if !done.contains(r) {
            let since = choose|since: Option<Lsn>| #[trigger] a.waits(r, since);
            assert(b.waits(r, since));
        }
    }
    assert forall|r: RecordView, since: Option<Lsn>| #[trigger]
        b.waits(r, since) implies r.lsn < b.lsn.next && (b.known(r) && !later.contains(r)
        ==> claim_ok(b, r, since)) by {
        assert(a.waits(r, since));
        if b.known(r) && !later.contains(r) {
            assert(a.known(r));
            assert(!done.contains(r));
            assert(claim_ok(a, r, since));
        }
    }
    assert forall|r: RecordView| #[trigger] b.live.contains(r) implies live_ok(b, later, r) by {
        assert(live_ok(a, done, r));
        assert forall|w: RecordView| #[trigger]
            b.known(w) && w != r && w.lsn == r.lsn implies later.contains(w) by {
            assert(a.known(w));
        }
    }
    assert forall|r: RecordView| #[trigger] b.open.contains(r) implies open_ok(b, later, r) by {
        assert(open_ok(a, done, r));
        assert(live_ok(a, done, r));
        assert forall|w: RecordView| #[trigger]
            b.written.contains(w) && w.lsn == r.lsn implies later.contains(w) by {
            if w == record {
                assert(a.known(w));
            }
        }
    }
    lemma_batches_kept(a, done, b, later);
}

proof fn lemma_refused(
    a: Journal,
    done: Set<RecordView>,
    record: RecordView,
    b: Journal,
    later: Set<RecordView>,
)
    requires
        journal_ok(a, done),
        journal_step(a, JournalEvent::Refused(record), b),
        goes_on(done, later, b),
    ensures
        journal_ok(b, later),
{
    assert(open_ok(a, done, record));
    assert(live_ok(a, done, record));
    lemma_inflow_kept(a, b);
    lemma_all_queued_kept(a, done, b, later);
    lemma_granted_kept(a, done, b, later);
    assert forall|r: RecordView, since: Option<Lsn>| #[trigger] b.waits(r, since) implies a.waits(
        r,
        since,
    ) by {
        lemma_drained_leaves(a.lsn.pending, record.lsn, claim_of(r, since));
    }
    assert forall|r: RecordView| #[trigger] b.known(r) implies owed_ok(b, later, r) by {
        assert(a.known(r));
        assert(owed_ok(a, done, r));
        if !done.contains(r) {
            if r == record {
                assert(a.written.contains(r));
            }
            let since = choose|since: Option<Lsn>| #[trigger] a.waits(r, since);
            lemma_others_stay(a.lsn.pending, record.lsn, claim_of(r, since));
            assert(b.waits(r, since));
        }
    }
    assert forall|r: RecordView, since: Option<Lsn>| #[trigger]
        b.waits(r, since) implies r.lsn < b.lsn.next && (b.known(r) && !later.contains(r)
        ==> claim_ok(b, r, since)) by {
        assert(a.waits(r, since));
        if b.known(r) && !later.contains(r) {
            assert(a.known(r));
            assert(!done.contains(r));
            assert(claim_ok(a, r, since));
            if r == record {
                assert(a.written.contains(r));
            }
        }
    }
    assert forall|r: RecordView| #[trigger] b.live.contains(r) implies live_ok(b, later, r) by {
        assert(live_ok(a, done, r));
        assert forall|w: RecordView| #[trigger]
            b.known(w) && w != r && w.lsn == r.lsn implies later.contains(w) by {
            assert(a.known(w));
        }
    }
    assert forall|r: RecordView| #[trigger] b.open.contains(r) implies open_ok(b, later, r) by {
        assert(open_ok(a, done, r));
    }
    assert(no_new_claims(a, b)) by {
        assert forall|r: RecordView, x: Lsn|
            #![trigger b.waits(r, Some(x))]
            b.waits(r, Some(x)) && b.known(r) && x < a.lsn.next implies a.waits(r, Some(x))
            && a.known(r) by {}
    }
    lemma_batches_kept(a, done, b, later);
}

proof fn lemma_stray(
    a: Journal,
    done: Set<RecordView>,
    record: RecordView,
    b: Journal,
    later: Set<RecordView>,
)
    requires
        journal_ok(a, done),
        journal_step(a, JournalEvent::Stray(record), b),
        goes_on(done, later, b),
    ensures
        journal_ok(b, later),
{
    assert forall|r: RecordView| #[trigger] b.written.contains(r) implies b.log.contains(r)
        || later.contains(r) by {
        if a.log.contains(r) {
            let k = choose|k: int| 0 <= k < a.log.len() && a.log[k] == r;
            assert(b.log[k] == r);
        }
    }
    lemma_inflow_kept(a, b);
    lemma_all_queued_kept(a, done, b, later);
    lemma_granted_kept(a, done, b, later);
    lemma_numbers_kept(a, done, b, later);
    lemma_batches_kept(a, done, b, later);
}

/// What a batch of different entities leaves in the store of one of them.
proof fn lemma_row_of(table: Map<PlayerId, StateView>, states: Seq<StateView>, i: int)
    requires
        0 <= i < states.len(),
        forall|a: int, b: int|
            0 <= a < b < states.len() ==> (#[trigger] states[a]).player_id != (
            #[trigger] states[b]).player_id,
    ensures
        upserted_all(table, states).dom().contains(states[i].player_id),
        ({
            let row = upserted_all(table, states)[states[i].player_id];
            row == states[i] || row.version > states[i].version
        }),
    decreases states.len(),
{
    let init = states.drop_last();
    if i < init.len() {
        assert forall|a: int, b: int| 0 <= a < b < init.len() implies (
        #[trigger] init[a]).player_id != (#[trigger] init[b]).player_id by {
            assert(init[a] == states[a] && init[b] == states[b]);
        }
        lemma_row_of(table, init, i);
        assert(init[i] == states[i]);
        assert(states[i].player_id != states[states.len() - 1].player_id);
    }
}

proof fn lemma_store(
    a: Journal,
    done: Set<RecordView>,
    at: Lsn,
    b: Journal,
    later: Set<RecordView>,
)
    requires
        journal_ok(a, done),
        journal_step(a, JournalEvent::Store(at), b),
        goes_on(done, later, b),
    ensures
        journal_ok(b, later),
{
    let states = a.staged[at];
    law_table_stays_ok(a.table, states);
    assert forall|id: PlayerId, version: u64| stored(a.table, id, version) implies #[trigger] stored(
        b.table,
        id,
        version,
    ) by {
        law_store_never_goes_back(a.table, states, id);
    }
    assert(staged_ok(a, at));
    lemma_inflow_kept(a, b);
    lemma_all_queued_kept(a, done, b, later);
    lemma_granted_kept(a, done, b, later);
    lemma_numbers_kept(a, done, b, later);
    assert forall|at2: Lsn| #[trigger] b.staged.dom().contains(at2) implies staged_ok(b, at2) by {
        assert(staged_ok(a, at2));
    }
    assert(no_new_claims(a, b));
    assert(inflow_grew(a, b));
    assert forall|at2: Lsn, i: int, r: RecordView, x: Lsn|
        b.staged.dom().contains(at2) && 0 <= i < b.staged[at2].len() implies #[trigger]
    batch_covers(b, later, at2, i, r, x) by {
        lemma_cover_kept(a, done, b, later, at2, i, r, x);
    }
    assert forall|at2: Lsn, i: int|
        b.taken_in.contains(at2) && 0 <= i < b.staged[at2].len() implies #[trigger] stored_state(
        b.table,
        b.staged[at2][i],
    ) by {
        if at2 == at {
            law_accepted_batch_is_stored(a.table, states, i);
        } else {
            assert(stored_state(a.table, a.staged[at2][i]));
        }
    }
    assert forall|at2: Lsn, i: int, r: RecordView, x: Lsn|
        b.taken_in.contains(at2) && 0 <= i < b.staged[at2].len() implies #[trigger]
    batch_settles(b, later, at2, i, r, x) by {
        if a.taken_in.contains(at2) {
            assert(batch_settles(a, done, at2, i, r, x));
        } else {
            lemma_taken_in(a, done, at, i, r, x, b);
        }
    }
}

/// The store has no more need of a record that a batch covers once it has taken
/// the batch in.
proof fn lemma_taken_in(
    a: Journal,
    done: Set<RecordView>,
    at: Lsn,
    i: int,
    r: RecordView,
    x: Lsn,
    b: Journal,
)
    requires
        journal_ok(a, done),
        journal_step(a, JournalEvent::Store(at), b),
        0 <= i < a.staged[at].len(),
    ensures
        a.waits(r, Some(x)) && a.known(r) && x <= at && r.player_id == a.staged[at][i].player_id
            ==> done.contains(r) || settled(b, r),
{
    let s = a.staged[at][i];
    if a.waits(r, Some(x)) && a.known(r) && x <= at && r.player_id == s.player_id && !done.contains(
        r,
    ) {
        assert(staged_ok(a, at));
        lemma_row_of(a.table, a.staged[at], i);
        assert(batch_covers(a, done, at, i, r, x));
        assert(claim_ok(a, r, Some(x)));
        assert(arrived_ok(a, r));
        let row = b.table[r.player_id];
        if row.version == r.version {
            assert(row == s);
            let n = choose|n: int|
                a.arrived[r] <= n < a.inflow.len() && #[trigger] a.inflow[n] == s;
            if n == a.arrived[r] {
                assert(row == r.state());
            } else {
                assert(b.inflow[n] == row);
            }
        }
    }
}

/// What counts as accepted is in the store.
proof fn lemma_accepted_is_stored(
    table: Map<PlayerId, StateView>,
    accepted: Map<PlayerId, u64>,
    states: Seq<StateView>,
    id: PlayerId,
)
    requires
        raised_all(accepted, states).dom().contains(id),
        accepted.dom().contains(id) ==> stored(table, id, accepted[id]),
        forall|i: int| 0 <= i < states.len() ==> stored_state(table, #[trigger] states[i]),
    ensures
        stored(table, id, raised_all(accepted, states)[id]),
{
    lemma_raised_by(accepted, states, id);
    let version = raised_all(accepted, states)[id];
    if !(accepted.dom().contains(id) && accepted[id] == version) {
        let k = choose|k: int|
            0 <= k < states.len() && (#[trigger] states[k]).player_id == id && states[k].version
                == version;
        assert(stored_state(table, states[k]));
    }
}

/// A claim that an accepted batch settles is that of a record that is done with.
proof fn lemma_settled_claim(
    a: Journal,
    done: Set<RecordView>,
    at: Lsn,
    r: RecordView,
    since: Option<Lsn>,
)
    requires
        journal_ok(a, done),
        a.taken_in.contains(at),
        a.waits(r, since),
        a.known(r),
        ({
            let accepted = raised_all(a.lsn.accepted, a.staged[at]);
            let held = raised_all(Map::empty(), a.staged[at]);
            settles(accepted, held, at, claim_of(r, since).claim)
        }),
    ensures
        done.contains(r) || settled(a, r),
{
    let states = a.staged[at];
    let accepted = raised_all(a.lsn.accepted, states);
    let held = raised_all(Map::empty(), states);
    let claim = claim_of(r, since).claim;
    assert forall|i: int| 0 <= i < states.len() implies stored_state(
        a.table,
        #[trigger] states[i],
    ) by {
        assert(stored_state(a.table, a.staged[at][i]));
    }
    if outdated(accepted, claim) {
        lemma_accepted_is_stored(a.table, a.lsn.accepted, states, r.player_id);
    } else {
        assert(carried(held, at, claim));
        lemma_raised_by(Map::empty(), states, r.player_id);
        let k = choose|k: int|
            0 <= k < states.len() && (#[trigger] states[k]).player_id == r.player_id
                && states[k].version == held[r.player_id];
        assert(batch_settles(a, done, at, k, r, since->Some_0));
    }
}

proof fn lemma_accepted(
    a: Journal,
    done: Set<RecordView>,
    at: Lsn,
    b: Journal,
    later: Set<RecordView>,
)
    requires
        journal_ok(a, done),
        journal_step(a, JournalEvent::Accepted(at), b),
        goes_on(done, later, b),
    ensures
        journal_ok(b, later),
{
    let states = a.staged[at];
    let accepted = b.lsn.accepted;
    let held = raised_all(Map::empty(), states);
    assert forall|r: RecordView| settled(a, r) implies #[trigger] later.contains(r) by {
        if superseded(a, r) {
            let n = choose|n: int|
                a.arrived[r] < n < a.inflow.len() && #[trigger] a.inflow[n]
                    == a.table[r.player_id];
            assert(b.inflow[n] == b.table[r.player_id]);
        }
        assert(settled(b, r));
    }
    lemma_inflow_kept(a, b);
    lemma_all_queued_kept(a, done, b, later);
    lemma_granted_kept(a, done, b, later);
    assert forall|r: RecordView, since: Option<Lsn>| #[trigger] b.waits(r, since) implies a.waits(
        r,
        since,
    ) by {
        lemma_settled_leaves(a.lsn.pending, accepted, held, at, claim_of(r, since));
    }
    assert forall|r: RecordView| #[trigger] b.known(r) implies owed_ok(b, later, r) by {
        assert(a.known(r));
        assert(owed_ok(a, done, r));
        if !later.contains(r) {
            let since = choose|since: Option<Lsn>| #[trigger] a.waits(r, since);
            if settles(accepted, held, at, claim_of(r, since).claim) {
                lemma_settled_claim(a, done, at, r, since);
            } else {
                lemma_unsettled_stays(a.lsn.pending, accepted, held, at, claim_of(r, since));
                assert(b.waits(r, since));
            }
        }
    }
    assert forall|r: RecordView, since: Option<Lsn>| #[trigger]
        b.waits(r, since) implies r.lsn < b.lsn.next && (b.known(r) && !later.contains(r)
        ==> claim_ok(b, r, since)) by {
        assert(a.waits(r, since));
        if b.known(r) && !later.contains(r) {
            assert(a.known(r));
            assert(!done.contains(r));
            assert(claim_ok(a, r, since));
        }
    }
    assert forall|r: RecordView| #[trigger] b.live.contains(r) implies live_ok(b, later, r) by {
        assert(live_ok(a, done, r));
        assert forall|w: RecordView| #[trigger]
            b.known(w) && w != r && w.lsn == r.lsn implies later.contains(w) by {
            assert(a.known(w));
        }
    }
    assert forall|r: RecordView| #[trigger] b.open.contains(r) implies open_ok(b, later, r) by {
        assert(open_ok(a, done, r));
    }
    lemma_accepted_batches(a, done, at, b, later);
}

proof fn lemma_accepted_batches(
    a: Journal,
    done: Set<RecordView>,
    at: Lsn,
    b: Journal,
    later: Set<RecordView>,
)
    requires
        journal_ok(a, done),
        journal_step(a, JournalEvent::Accepted(at), b),
        done.subset_of(later),
        forall|r: RecordView, since: Option<Lsn>| #[trigger]
            b.waits(r, since) ==> a.waits(r, since),
    ensures
        batches_ok(b, later),
{
    let mid = Journal { lsn: LsnView { accepted: a.lsn.accepted, ..b.lsn }, ..b };
    assert forall|r: RecordView, x: Lsn| #[trigger] mid.waits(r, Some(x)) implies b.waits(
        r,
        Some(x),
    ) by {}
    assert(no_new_claims(a, mid)) by {
        assert forall|r: RecordView, x: Lsn|
            #![trigger mid.waits(r, Some(x))]
            mid.waits(r, Some(x)) && mid.known(r) && x < a.lsn.next implies a.waits(r, Some(x))
            && a.known(r) by {
            assert(b.waits(r, Some(x)));
        }
    }
    lemma_batches_kept(a, done, mid, later);
    assert forall|at2: Lsn| #[trigger] b.staged.dom().contains(at2) implies staged_ok(b, at2) by {
        assert(staged_ok(mid, at2));
    }
    assert forall|at2: Lsn, i: int, r: RecordView, x: Lsn|
        b.staged.dom().contains(at2) && 0 <= i < b.staged[at2].len() implies #[trigger]
    batch_covers(b, later, at2, i, r, x) by {
        assert(batch_covers(mid, later, at2, i, r, x));
        assert(mid.waits(r, Some(x)) == b.waits(r, Some(x)));
        assert(mid.known(r) == b.known(r));
    }
    assert forall|at2: Lsn, i: int, r: RecordView, x: Lsn|
        b.taken_in.contains(at2) && 0 <= i < b.staged[at2].len() implies #[trigger]
    batch_settles(b, later, at2, i, r, x) by {
        assert(batch_settles(mid, later, at2, i, r, x));
        assert(mid.waits(r, Some(x)) == b.waits(r, Some(x)));
        assert(mid.known(r) == b.known(r));
    }
    assert forall|at2: Lsn, i: int|
        b.taken_in.contains(at2) && 0 <= i < b.staged[at2].len() implies #[trigger] stored_state(
        b.table,
        b.staged[at2][i],
    ) by {
        assert(stored_state(mid.table, mid.staged[at2][i]));
    }
    assert forall|id: PlayerId| #[trigger] b.lsn.accepted.dom().contains(id) implies stored(
        b.table,
        id,
        b.lsn.accepted[id],
    ) by {
        assert forall|i: int| 0 <= i < a.staged[at].len() implies stored_state(
            a.table,
            #[trigger] a.staged[at][i],
        ) by {}
        lemma_accepted_is_stored(a.table, a.lsn.accepted, a.staged[at], id);
    }
}

/// A checkpoint at the watermark does not reach a record that is not done with.
proof fn lemma_watermark_stays_below(
    a: Journal,
    done: Set<RecordView>,
    proposed: Lsn,
    safe: Lsn,
    r: RecordView,
)
    requires
        owed_ok(a, done, r),
        a.lsn.watermark(proposed, Some(safe)),
        r.lsn <= safe,
    ensures
        done.contains(r),
{
    if !done.contains(r) {
        let since = choose|since: Option<Lsn>| #[trigger] a.waits(r, since);
        let k = choose|k: int|
            0 <= k < a.lsn.pending.len() && a.lsn.pending[k] == claim_of(r, since);
        let min = choose|min: Lsn| #[trigger]
            a.lsn.lowest(min) && min > 0 && safe == if proposed < min - 1 {
                proposed as int
            } else {
                min - 1
            };
        assert(min <= a.lsn.pending[k].lsn);
    }
}

proof fn lemma_grant(
    a: Journal,
    done: Set<RecordView>,
    proposed: Lsn,
    safe: Lsn,
    b: Journal,
    later: Set<RecordView>,
)
    requires
        journal_ok(a, done),
        journal_step(a, JournalEvent::Grant(proposed, safe), b),
        goes_on(done, later, b),
    ensures
        journal_ok(b, later),
{
    lemma_inflow_kept(a, b);
    lemma_all_queued_kept(a, done, b, later);
    lemma_granted_kept(a, done, b, later);
    assert(safe <= proposed);
    assert forall|g: Lsn| #[trigger] b.granted.contains(g) implies granted_ok(b, later, g) by {
        if !a.granted.contains(g) {
            assert forall|r: RecordView| #[trigger]
                b.known(r) && r.lsn <= g implies later.contains(r) by {
                assert(a.known(r));
                lemma_watermark_stays_below(a, done, proposed, safe, r);
            }
        }
    }
    lemma_numbers_kept(a, done, b, later);
    lemma_batches_kept(a, done, b, later);
}

/// A checkpoint at a granted watermark keeps every written record that is not done
/// with.
pub proof fn lemma_survives(a: Journal, done: Set<RecordView>, safe: Lsn, r: RecordView)
    requires
        journal_ok(a, done),
        a.granted.contains(safe),
        a.written.contains(r),
    ensures
        survivors(a.log, safe).contains(r) || done.contains(r),
{
    assert(granted_ok(a, done, safe));
    assert(a.known(r));
    if !done.contains(r) {
        let k = choose|k: int| 0 <= k < a.log.len() && a.log[k] == r;
        law_checkpoint_keeps_exactly_the_later_records(a.log, safe);
        let keep = |x: RecordView| x.lsn > safe;
        assert(keep(a.log[k]));
        a.log.lemma_filter_contains(keep, k);
    }
}

proof fn lemma_checkpoint(
    a: Journal,
    done: Set<RecordView>,
    safe: Lsn,
    b: Journal,
    later: Set<RecordView>,
)
    requires
        journal_ok(a, done),
        journal_step(a, JournalEvent::Checkpoint(safe), b),
        goes_on(done, later, b),
    ensures
        journal_ok(b, later),
{
    assert forall|r: RecordView| #[trigger] b.written.contains(r) implies b.log.contains(r)
        || later.contains(r) by {
        lemma_survives(a, done, safe, r);
    }
    lemma_inflow_kept(a, b);
    lemma_all_queued_kept(a, done, b, later);
    lemma_granted_kept(a, done, b, later);
    lemma_numbers_kept(a, done, b, later);
    lemma_batches_kept(a, done, b, later);
}

/// Records come into an empty cache in order.
proof fn lemma_arrive_all(j: Journal, records: Seq<RecordView>)
    requires
        inflow_ok(j),
        forall|i: int| 0 <= i < records.len() ==> (#[trigger] records[i]).lsn < j.lsn.next,
    ensures
        inflow_ok(j.arrive_all(records)),
        j.arrive_all(records).lsn == j.lsn,
        j.arrive_all(records).cache == j.cache.merged_all(logged_states(records)),
        forall|i: int|
            0 <= i < records.len() ==> j.arrive_all(records).arrived.dom().contains(
                #[trigger] records[i],
            ),
    decreases records.len(),
{
    if records.len() > 0 {
        let init = records.drop_last();
        let last = records[records.len() - 1];
        assert forall|i: int| 0 <= i < init.len() implies (#[trigger] init[i]).lsn
            < j.lsn.next by {
            assert(init[i] == records[i]);
        }
        lemma_arrive_all(j, init);
        lemma_arrive(j.arrive_all(init), last);
        assert(logged_states(records).drop_last() =~= logged_states(init));
        assert(logged_states(records).last() == last.state());
        assert forall|i: int| 0 <= i < records.len() implies j.arrive_all(
            records,
        ).arrived.dom().contains(#[trigger] records[i]) by {
            if i < init.len() {
                assert(init[i] == records[i]);
            }
        }
    } else {
        assert(logged_states(records) =~= Seq::empty());
    }
}

/// An engine that starts on what a log holds, when all else is done with.
proof fn lemma_start(j: Journal, records: Seq<RecordView>, first: Lsn, done: Set<RecordView>)
    requires
        journal_start(j, records, first),
        table_ok(j.table),
        forall|r: RecordView| #[trigger]
            j.written.contains(r) ==> records.contains(r) || done.contains(r),
    ensures
        journal_ok(j, done),
        j.cache == CacheView::empty().merged_all(logged_states(records)),
{
    assert(j.lsn.next == first);
    assert(j.emptied().cache.ok());
    lemma_arrive_all(j.emptied(), records);
    assert(Seq::<Owed>::empty() + claims(records, first) =~= claims(records, first));
    assert forall|r: RecordView| #[trigger] records.contains(r) implies j.waits(r, Some(first))
        && r.lsn < first && j.arrived.dom().contains(r) by {
        let k = choose|k: int| 0 <= k < records.len() && records[k] == r;
        assert(claims(records, first)[k] == claim_of(r, Some(first)));
        assert(records[k].lsn < first);
    }
    assert forall|r: RecordView, since: Option<Lsn>| #[trigger] j.waits(r, since) implies r.lsn
        < j.lsn.next && since == Some(first) by {
        let k = choose|k: int|
            0 <= k < j.lsn.pending.len() && j.lsn.pending[k] == claim_of(r, since);
        assert(j.lsn.pending[k] == claim_of(records[k], Some(first)));
        assert(records[k].lsn < first);
    }
}

proof fn lemma_journal_step(
    a: Journal,
    done: Set<RecordView>,
    event: JournalEvent,
    b: Journal,
    later: Set<RecordView>,
)
    requires
        journal_ok(a, done),
        journal_step(a, event, b),
        goes_on(done, later, b),
    ensures
        journal_ok(b, later),
        a.written.subset_of(b.written),
{
    match event {
        JournalEvent::Submit(request, room) => lemma_submit(a, done, request, room, b, later),
        JournalEvent::Begin(record) => lemma_begin(a, done, record, b, later),
        JournalEvent::Finish(record, room) => lemma_finish(a, done, record, room, b, later),
        JournalEvent::Drain => lemma_drain(a, done, b, later),
        JournalEvent::Stage(states) => lemma_stage(a, done, states, b, later),
        JournalEvent::GiveBack(at) => lemma_give_back(a, done, at, b, later),
        JournalEvent::Logged(record) => lemma_logged(a, done, record, b, later),
        JournalEvent::Refused(record) => lemma_refused(a, done, record, b, later),
        JournalEvent::Stray(record) => lemma_stray(a, done, record, b, later),
        JournalEvent::Store(at) => lemma_store(a, done, at, b, later),
        JournalEvent::Accepted(at) => lemma_accepted(a, done, at, b, later),
        JournalEvent::Grant(proposed, safe) => lemma_grant(a, done, proposed, safe, b, later),
        JournalEvent::Checkpoint(safe) => lemma_checkpoint(a, done, safe, b, later),
        JournalEvent::Restart(records, first) => {
            assert forall|r: RecordView| #[trigger] b.written.contains(r) implies records.contains(
                r,
            ) || later.contains(r) by {
                if !a.written.contains(r) {
                    assert(records.to_set().contains(r));
                }
            }
            lemma_start(b, records, first, later);
        },
    }
}

/// The records that are done with at a moment.
pub open spec fn done_by(run: Seq<Journal>, k: int) -> Set<RecordView> {
    Set::new(|r: RecordView| settled_by(run, k, r))
}

pub proof fn lemma_journal_ok(
    run: Seq<Journal>,
    events: Seq<JournalEvent>,
    records: Seq<RecordView>,
    k: int,
)
    requires
        journal_run(run, events, records),
        0 <= k <= events.len(),
    ensures
        journal_ok(run[k], done_by(run, k)),
        forall|j: int, r: RecordView|
            0 <= j <= k && #[trigger] run[j].written.contains(r) ==> run[k].written.contains(r),
    decreases k,
{
    if k == 0 {
        lemma_start(run[0], records, run[0].lsn.next, done_by(run, 0));
    } else {
        lemma_journal_ok(run, events, records, k - 1);
        assert(journal_step(run[k - 1], events[k - 1], run[k - 1 + 1]));
        let done = done_by(run, k - 1);
        let later = done_by(run, k);
        assert(goes_on(done, later, run[k])) by {
            assert forall|r: RecordView| #[trigger] done.contains(r) implies later.contains(r) by {
                let m = choose|m: int| 0 <= m <= k - 1 && #[trigger] settled(run[m], r);
                assert(settled(run[m], r));
            }
            assert forall|r: RecordView| #[trigger] settled(run[k], r) implies later.contains(
                r,
            ) by {}
        }
        lemma_journal_step(run[k - 1], done, events[k - 1], run[k], later);
    }
}

} // verus!
