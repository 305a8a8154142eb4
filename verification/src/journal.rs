//! Numbers, pending records, checkpoints and the store over the lives of an
//! engine.
//!
//! The log is written by durable submissions and by flushes, and checkpoints
//! discard records from it. This module follows all of that, in any order of
//! events and through any number of kills and restarts, and shows that a record
//! stays in the log until the store has absorbed its content: has held it, or a
//! newer version of its entity, or a write of the same version that came into the
//! cache after it.

use crate::api::request_of;
use crate::disk::{after_steps, may_survive, Disk};
use crate::domain::{CacheView, Lsn, PlayerId, RecordView, RequestView, StateView};
use crate::flush::stamped;
use crate::journal_steps::{done_by, lemma_journal_ok, lemma_survives};
use crate::lsn::{carried_numbers, claim_of, LsnView};
use crate::segment::{all_fit, law_recovery_returns_what_was_appended, recovered, segment};
use crate::store::{table_ok, upserted_all};
use crate::wal::{
    checkpoint_steps, law_checkpointed_segment_recovers_to_survivors,
    law_crash_during_checkpoint_leaves_old_or_new, survivors,
};
use vstd::prelude::*;

verus! {

/// The parts of an engine that bear on its log, the log, and the store.
#[verifier::ext_equal]
pub struct Journal {
    /// Requests in the ring.
    pub queued: Seq<RequestView>,
    pub cache: CacheView,
    pub lsn: LsnView,
    /// The records in the log.
    pub log: Seq<RecordView>,
    /// What the store holds.
    pub table: Map<PlayerId, StateView>,
    /// The records of this life.
    pub live: Set<RecordView>,
    /// Those of them whose append is not over.
    pub open: Set<RecordView>,
    /// Records that the log has accepted, or was found to hold at a start: those
    /// of durable submissions that were acknowledged, and those of batches.
    pub written: Set<RecordView>,
    /// Watermarks up to which a checkpoint may be on its way.
    pub granted: Set<Lsn>,
    /// The batches that were taken out of the cache, by their first number.
    pub staged: Map<Lsn, Seq<StateView>>,
    /// Those of them that the store has taken in.
    pub taken_in: Set<Lsn>,
    /// All that came into the cache in this life, in order.
    pub inflow: Seq<StateView>,
    /// Which of that every entry of the cache is.
    pub entered: Map<PlayerId, int>,
    /// Which of that is the content of a record.
    pub arrived: Map<RecordView, int>,
}

/// One thing that happens.
pub enum JournalEvent {
    /// A plain submission draws a number; its request is queued or dropped
    /// ([`crate::api::FluxEngine::submit`]).
    Submit(RequestView, bool),
    /// A durable submission draws the number of its record, which is pending from
    /// then on ([`crate::api::FluxEngine::submit_durable`]).
    Begin(RecordView),
    /// A durable submission is over: its request is queued or dropped
    /// ([`crate::api::FluxEngine::finish_durable`]).
    Finish(RecordView, bool),
    /// The oldest request comes into the cache ([`crate::worker::absorb`]).
    Drain,
    /// A batch is taken out of the cache and draws the numbers of its records,
    /// which are pending from then on
    /// ([`crate::worker::WorkerDeps::next_batch`]).
    Stage(Seq<StateView>),
    /// A batch is given back to the cache
    /// ([`crate::flush::StagedBatch::append_failed`]).
    GiveBack(Lsn),
    /// The append of a record succeeds. A durable submission is acknowledged.
    Logged(RecordView),
    /// The append of a durable submission fails, and the caller is told so
    /// ([`crate::api::DurableWrite::append_failed`]).
    Refused(RecordView),
    /// A record is in the log although its append does not succeed.
    Stray(RecordView),
    /// The store takes in a batch ([`crate::store::MockDb`]).
    Store(Lsn),
    /// The engine learns that the store has taken in a batch
    /// ([`crate::flush::LoggedBatch::replied`]).
    Accepted(Lsn),
    /// A watermark is worked out for a proposal
    /// ([`crate::lsn::LsnState::checkpoint_watermark`]).
    Grant(Lsn, Lsn),
    /// The log is checkpointed at a watermark, at once or later
    /// ([`crate::wal::Wal::checkpoint`]).
    Checkpoint(Lsn),
    /// The process is killed, and started again on what its log is found to hold,
    /// with this first number ([`crate::api::FluxEngine::start`]).
    Restart(Seq<RecordView>, Lsn),
}

/// The record that a request would have under its number.
pub open spec fn record_of(q: RequestView) -> RecordView {
    RecordView { lsn: q.seq, player_id: q.player_id, version: q.version, blob: q.blob }
}

impl Journal {
    /// After the content of a record has come into the cache.
    pub open spec fn arrive(self, r: RecordView) -> Journal {
        let at = self.inflow.len() as int;
        Journal {
            cache: self.cache.merged(r.state()),
            inflow: self.inflow.push(r.state()),
            entered: if self.cache.accepts(r.state()) {
                self.entered.insert(r.player_id, at)
            } else {
                self.entered
            },
            arrived: if self.arrived.dom().contains(r) {
                self.arrived
            } else {
                self.arrived.insert(r, at)
            },
            ..self
        }
    }

    /// After the content of several records has, in order.
    pub open spec fn arrive_all(self, records: Seq<RecordView>) -> Journal
        decreases records.len(),
    {
        if records.len() == 0 {
            self
        } else {
            self.arrive_all(records.drop_last()).arrive(records.last())
        }
    }

    /// With nothing in the cache.
    pub open spec fn emptied(self) -> Journal {
        Journal {
            cache: CacheView::empty(),
            inflow: Seq::empty(),
            entered: Map::empty(),
            arrived: Map::empty(),
            ..self
        }
    }

    /// Whether the engine answers for a record.
    pub open spec fn known(self, r: RecordView) -> bool {
        self.live.contains(r) || self.written.contains(r)
    }

    /// Whether the number of a record is pending.
    pub open spec fn waits(self, r: RecordView, since: Option<Lsn>) -> bool {
        self.lsn.pending.contains(claim_of(r, since))
    }
}

/// Whether the store holds the content of a record, or a newer version of its
/// entity.
pub open spec fn absorbed(table: Map<PlayerId, StateView>, r: RecordView) -> bool {
    table.dom().contains(r.player_id) && (table[r.player_id].version > r.version
        || table[r.player_id] == r.state())
}

/// Whether the store holds a write of the same version that came into the cache
/// after the content of a record.
pub open spec fn superseded(j: Journal, r: RecordView) -> bool {
    &&& j.arrived.dom().contains(r)
    &&& j.table.dom().contains(r.player_id)
    &&& j.table[r.player_id].version == r.version
    &&& exists|n: int|
        j.arrived[r] < n < j.inflow.len() && #[trigger] j.inflow[n] == j.table[r.player_id]
}

/// Whether the store has no more need of a record.
pub open spec fn settled(j: Journal, r: RecordView) -> bool {
    absorbed(j.table, r) || superseded(j, r)
}

/// Whether `event` may turn `a` into `b`. Numbers are not used up.
pub open spec fn journal_step(a: Journal, event: JournalEvent, b: Journal) -> bool {
    match event {
        JournalEvent::Submit(request, room) => {
            &&& request.seq == a.lsn.next
            &&& a.lsn.next < u64::MAX
            &&& b == (Journal {
                queued: if room {
                    a.queued.push(request)
                } else {
                    a.queued
                },
                lsn: a.lsn.advanced(1),
                ..a
            })
        },
        JournalEvent::Begin(record) => {
            &&& record.lsn == a.lsn.next
            &&& a.lsn.next < u64::MAX
            &&& b == (Journal {
                lsn: a.lsn.advanced(1).noted(claim_of(record, None)),
                live: a.live.insert(record),
                open: a.open.insert(record),
                ..a
            })
        },
        JournalEvent::Finish(record, room) => {
            &&& a.live.contains(record)
            &&& b == (Journal {
                queued: if room {
                    a.queued.push(request_of(record))
                } else {
                    a.queued
                },
                ..a
            })
        },
        JournalEvent::Drain => {
            &&& a.queued.len() > 0
            &&& b == (Journal {
                queued: a.queued.skip(1),
                lsn: a.lsn.after_caching(carried_numbers(seq![a.queued[0]]), a.lsn.next),
                ..a.arrive(record_of(a.queued[0]))
            })
        },
        JournalEvent::Stage(states) => {
            let records = stamped(states, a.lsn.next);
            &&& states.len() > 0
            &&& a.lsn.next + states.len() <= u64::MAX
            &&& a.cache.taken(states, b.cache)
            &&& b == (Journal {
                cache: b.cache,
                lsn: a.lsn.advanced(states.len() as u64).noted_all(records, a.lsn.next),
                live: a.live.union(records.to_set()),
                open: a.open.union(records.to_set()),
                staged: a.staged.insert(a.lsn.next, states),
                arrived: a.arrived.union_prefer_right(
                    Map::new(
                        |r: RecordView| records.contains(r),
                        |r: RecordView| a.entered[r.player_id],
                    ),
                ),
                ..a
            })
        },
        JournalEvent::GiveBack(at) => {
            &&& a.staged.dom().contains(at)
            &&& b == (Journal { cache: a.cache.given_back_all(a.staged[at]), ..a })
        },
        JournalEvent::Logged(record) => {
            &&& a.open.contains(record)
            &&& b == (Journal {
                log: a.log.push(record),
                open: a.open.remove(record),
                written: a.written.insert(record),
                ..a
            })
        },
        JournalEvent::Refused(record) => {
            &&& a.open.contains(record)
            &&& b == (Journal {
                lsn: a.lsn.drained(record.lsn),
                live: a.live.remove(record),
                open: a.open.remove(record),
                ..a
            })
        },
        JournalEvent::Stray(record) => {
            &&& a.open.contains(record)
            &&& b == (Journal { log: a.log.push(record), ..a })
        },
        JournalEvent::Store(at) => {
            &&& a.staged.dom().contains(at)
            &&& b == (Journal {
                table: upserted_all(a.table, a.staged[at]),
                taken_in: a.taken_in.insert(at),
                ..a
            })
        },
        JournalEvent::Accepted(at) => {
            &&& a.taken_in.contains(at)
            &&& b == (Journal { lsn: a.lsn.after_accept(a.staged[at], at), ..a })
        },
        JournalEvent::Grant(proposed, safe) => {
            &&& proposed < a.lsn.next
            &&& a.lsn.watermark(proposed, Some(safe))
            &&& b == (Journal { granted: a.granted.insert(safe), ..a })
        },
        JournalEvent::Checkpoint(safe) => {
            &&& a.granted.contains(safe)
            &&& b == (Journal { log: survivors(a.log, safe), ..a })
        },
        JournalEvent::Restart(records, first) => {
            &&& forall|r: RecordView| #[trigger]
                a.written.contains(r) && a.log.contains(r) ==> records.contains(r)
            &&& journal_start(b, records, first)
            &&& b.table == a.table
            &&& b.written == a.written.union(records.to_set())
        },
    }
}

/// An engine that was started on a log with these records.
pub open spec fn journal_start(j: Journal, records: Seq<RecordView>, first: Lsn) -> bool {
    &&& j == j.emptied().arrive_all(records)
    &&& j.lsn == LsnView::fresh(first).noted_all(records, first)
    &&& forall|i: int| 0 <= i < records.len() ==> (#[trigger] records[i]).lsn < first
    &&& j.queued.len() == 0
    &&& j.log == records
    &&& j.live.is_empty()
    &&& j.open.is_empty()
    &&& j.granted.is_empty()
    &&& j.staged.dom().is_empty()
    &&& j.taken_in.is_empty()
}

/// Whether `run` is what happens to an engine with these events, from a first
/// start on a log with `records` and any store.
pub open spec fn journal_run(
    run: Seq<Journal>,
    events: Seq<JournalEvent>,
    records: Seq<RecordView>,
) -> bool {
    &&& run.len() == events.len() + 1
    &&& journal_start(run[0], records, run[0].lsn.next)
    &&& run[0].written == records.to_set()
    &&& table_ok(run[0].table)
    &&& forall|k: int|
        0 <= k < events.len() ==> journal_step(run[k], #[trigger] events[k], run[k + 1])
}

/// Whether the store has had no more need of a record at some moment up to `k`.
pub open spec fn settled_by(run: Seq<Journal>, k: int, r: RecordView) -> bool {
    exists|m: int| 0 <= m <= k && #[trigger] settled(run[m], r)
}

/// No written record is ever lost: from the moment at which the log has accepted
/// it, at every moment, whatever is submitted, dropped, flushed, refused,
/// checkpointed or killed, it is in the log, or the store has absorbed it: has
/// held its content, or a newer version of its entity, or a write of the same
/// version that came into the cache after it. This holds of every acknowledged
/// durable submission, of the records of every batch, and of those that the log
/// was found to hold.
pub proof fn law_written_record_is_logged_or_absorbed(
    run: Seq<Journal>,
    events: Seq<JournalEvent>,
    records: Seq<RecordView>,
    j: int,
    k: int,
    r: RecordView,
)
    requires
        journal_run(run, events, records),
        0 <= j <= k <= events.len(),
        run[j].written.contains(r),
    ensures
        run[k].log.contains(r) || exists|m: int|
            0 <= m <= k && (#[trigger] absorbed(run[m].table, r) || superseded(run[m], r)),
{
    lemma_journal_ok(run, events, records, k);
    assert(run[k].written.contains(r));
    if !run[k].log.contains(r) {
        assert(settled_by(run, k, r));
        let m = choose|m: int| 0 <= m <= k && #[trigger] settled(run[m], r);
        assert(absorbed(run[m].table, r) || superseded(run[m], r));
    }
}

/// The same holds of the records that the log was found to hold at first.
pub proof fn law_recovered_record_is_logged_or_absorbed(
    run: Seq<Journal>,
    events: Seq<JournalEvent>,
    records: Seq<RecordView>,
    i: int,
    k: int,
)
    requires
        journal_run(run, events, records),
        0 <= i < records.len(),
        0 <= k <= events.len(),
    ensures
        run[k].log.contains(records[i]) || settled_by(run, k, records[i]),
{
    assert(records.to_set().contains(records[i]));
    lemma_journal_ok(run, events, records, k);
    assert(run[0].written.contains(records[i]));
}

/// A crash during a checkpoint loses no written record either: whichever of the
/// checkpoint's steps were taken, what the next start recovers holds the record,
/// or the store has absorbed it.
pub proof fn law_written_record_survives_a_crash_during_checkpoint(
    run: Seq<Journal>,
    events: Seq<JournalEvent>,
    records: Seq<RecordView>,
    k: int,
    r: RecordView,
    d: Disk,
    safe: Lsn,
    i: int,
    image: Seq<u8>,
)
    requires
        journal_run(run, events, records),
        0 <= k <= events.len(),
        run[k].written.contains(r),
        run[k].granted.contains(safe),
        all_fit(run[k].log),
        d.active == segment(run[k].log),
        d.synced == d.active.len(),
        d.replaced is None,
        0 <= i <= 5,
        may_survive(after_steps(d, checkpoint_steps(d.active, safe).take(i)), image),
    ensures
        recovered(image).contains(r) || settled_by(run, k, r),
{
    let a = run[k];
    lemma_journal_ok(run, events, records, k);
    assert(d.active + Seq::<u8>::empty() =~= d.active);
    law_recovery_returns_what_was_appended(a.log, Seq::empty());
    law_crash_during_checkpoint_leaves_old_or_new(d, safe, i, image);
    if may_survive(d, image) {
        assert(d.active.take(d.active.len() as int) =~= d.active);
        assert(image == d.active);
    } else {
        law_checkpointed_segment_recovers_to_survivors(d.active, safe);
        lemma_survives(a, done_by(run, k), safe, r);
    }
}

} // verus!
