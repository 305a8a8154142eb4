//! The engine: the one object that an application's main loop talks to.
//!
//! A submission draws a number and makes one attempt at the ring; when the ring
//! is full it is dropped and counted, never held up. A durable submission is
//! logged first and then takes the same way. Everything slow lies behind the
//! ring.
//!
//! An engine is started with the records that the log was found to hold. They go
//! into the cache as dirty entries before any traffic, and take the ordinary way
//! through the log into the store from there. Until the store has them, their
//! numbers are pending, as those of new records are.

use crate::cache::{
    law_last_write_wins, law_no_write_is_forgotten, lemma_untouched, wins_at, WriteBehindCache,
};
use crate::config::FluxConfig;
use crate::domain::{
    holds_player, record_views, requested_states, Cache, CacheView, Lsn, PlayerId, PlayerState, Queue, RecordView, RequestView,
    StateView, WalRecord, WriteRequest,
};
use crate::lsn::{
    claim_of, law_marking_and_draining, law_watermark_is_the_highest_safe_number, LsnState,
    LsnView,
};
use crate::metrics::{Metrics, MetricsSnapshot};
use crate::ring::{is_rounded_up, RingBuffer};
use crate::time::{clock_elapsed, clock_now, Span};
use crate::wal::{highest_lsn, law_highest_is_the_highest};
use crate::worker::{
    batch_size, filled, flush_stepped, DepsView, FlushRun, FlushStep, WorkerDeps,
};
use vstd::prelude::*;
use vstd::slice::slice_to_vec;

verus! {

/// Outcome of a submission.
#[derive(Debug, Clone, Copy, PartialEq, Eq, Structural)]
pub enum SubmitOutcome {
    /// The write is in the ring and will be flushed.
    Enqueued,
    /// The ring was full and the write was dropped.
    Dropped,
}

/// A durable submission on its way into the log.
#[derive(Debug)]
pub struct DurableWrite {
    record: WalRecord,
}

impl View for DurableWrite {
    type V = RecordView;

    closed spec fn view(&self) -> RecordView {
        self.record@
    }
}

/// The request that carries a logged record, under its number.
pub open spec fn request_of(r: RecordView) -> RequestView {
    RequestView { player_id: r.player_id, version: r.version, blob: r.blob, seq: r.lsn }
}

impl DurableWrite {
    /// Prepares a durable submission under the number `at`, which is pending
    /// from now on: no checkpoint may reach its record before its content is in
    /// the store.
    pub fn prepare(
        at: Lsn,
        player_id: PlayerId,
        version: u64,
        blob: Vec<u8>,
        lsn: &mut LsnState,
    ) -> (write: DurableWrite)
        ensures
            write@ == (RecordView { lsn: at, player_id, version, blob: blob@ }),
            final(lsn)@ == old(lsn)@.noted(claim_of(write@, None)),
    {
        lsn.note_logged(at, player_id, version, None);
        DurableWrite { record: WalRecord { lsn: at, player_id, version, blob } }
    }

    /// The record to be appended to the log.
    pub fn record(&self) -> (record: &WalRecord)
        ensures
            record@ == self@,
    {
        &self.record
    }

    /// The record could not be logged: its number is not pending any more.
    pub fn append_failed(self, lsn: &mut LsnState)
        ensures
            final(lsn)@ == old(lsn)@.drained(self@.lsn),
    {
        lsn.note_drained(self.record.lsn);
    }

    /// The record is in the log: the request that takes its content to the
    /// store.
    pub fn into_request(self) -> (request: WriteRequest)
        ensures
            request@ == request_of(self@),
    {
        WriteRequest {
            player_id: self.record.player_id,
            version: self.record.version,
            blob: self.record.blob,
            seq: self.record.lsn,
        }
    }
}

/// The states that `records` log.
pub open spec fn logged_states(records: Seq<RecordView>) -> Seq<StateView> {
    Seq::new(records.len(), |i: int| records[i].state())
}

/// The first number for an engine whose log holds `records`: one more than the
/// highest of theirs, as long as there is one.
pub open spec fn first_number(records: Seq<RecordView>) -> Lsn {
    let highest = highest_lsn(0, records);
    if highest < u64::MAX {
        (highest + 1) as u64
    } else {
        u64::MAX
    }
}

/// Replays recovered records into `cache` as dirty entries, and returns the
/// first number for what comes after them.
pub fn replay<C: Cache>(recovered: &[WalRecord], cache: &mut C) -> (first: Lsn)
    requires
        old(cache).wf(),
    ensures
        final(cache).wf(),
        final(cache).model() == old(cache).model().merged_all(
            logged_states(record_views(recovered@)),
        ),
        first == first_number(record_views(recovered@)),
{
    let ghost views = record_views(recovered@);
    let ghost states = logged_states(views);
    let mut highest: Lsn = 0;
    let mut i: usize = 0;
    while i < recovered.len()
        invariant
            i <= recovered@.len(),
            views == record_views(recovered@),
            states == logged_states(views),
            cache.wf(),
            cache.model() == old(cache).model().merged_all(states.take(i as int)),
            highest == highest_lsn(0, views.take(i as int)),
        decreases recovered@.len() - i,
    {
        proof {
            assert(states.take(i + 1).drop_last() =~= states.take(i as int));
            assert(views.take(i + 1).drop_last() =~= views.take(i as int));
        }
        let record = &recovered[i];
        if record.lsn > highest {
            highest = record.lsn;
        }
        let request = WriteRequest {
            player_id: record.player_id,
            version: record.version,
            blob: slice_to_vec(record.blob.as_slice()),
            seq: i as u64,
        };
        assert(request@.state() == states[i as int]);
        cache.apply(&request);
        i = i + 1;
    }
    proof {
        assert(states.take(i as int) =~= states);
        assert(views.take(i as int) =~= views);
    }
    highest.saturating_add(1)
}

/// The engine.
pub struct FluxEngine {
    deps: WorkerDeps<RingBuffer, WriteBehindCache>,
}

impl View for FluxEngine {
    type V = DepsView;

    closed spec fn view(&self) -> DepsView {
        self.deps@
    }
}

impl DepsView {
    /// After one attempt to submit a write: a number is drawn, and the request
    /// is queued if there is room.
    pub open spec fn submitted(self, player_id: PlayerId, version: u64, blob: Seq<u8>) -> DepsView {
        DepsView {
            queued: if self.queued.len() < self.limit {
                self.queued.push(
                    RequestView { player_id, version, blob, seq: self.lsn.next },
                )
            } else {
                self.queued
            },
            lsn: self.lsn.advanced(1),
            ..self
        }
    }
}

impl DepsView {
    /// The record of a durable submission that begins now.
    pub open spec fn durable_record(
        self,
        player_id: PlayerId,
        version: u64,
        blob: Seq<u8>,
    ) -> RecordView {
        RecordView { lsn: self.lsn.next, player_id, version, blob }
    }

    /// After a durable submission has begun: its number is drawn and pending.
    pub open spec fn durable_begun(self, record: RecordView) -> DepsView {
        DepsView { lsn: self.lsn.advanced(1).noted(claim_of(record, None)), ..self }
    }

    /// After the record of a durable submission was logged, or was not.
    pub open spec fn durable_finished(self, record: RecordView, logged: bool) -> DepsView {
        if !logged {
            DepsView { lsn: self.lsn.drained(record.lsn), ..self }
        } else if self.queued.len() < self.limit {
            DepsView { queued: self.queued.push(request_of(record)), ..self }
        } else {
            self
        }
    }
}

/// The metrics after a submission that took `nanos`.
pub open spec fn counted(
    m: MetricsSnapshot,
    outcome: SubmitOutcome,
    nanos: u64,
) -> MetricsSnapshot {
    match outcome {
        SubmitOutcome::Enqueued => m.enqueued(nanos),
        SubmitOutcome::Dropped => m.dropped(),
    }
}

impl FluxEngine {
    pub closed spec fn wf(&self) -> bool {
        self.deps.wf()
    }

    /// Starts an engine on a log that was found to hold `recovered`.
    ///
    /// A configuration that cannot be run is refused with what is wrong with it.
    pub fn start(config: FluxConfig, recovered: &[WalRecord]) -> (result: Result<
        FluxEngine,
        String,
    >)
        requires
            config.ring_capacity <= usize::MAX / 4 + 1,
        ensures
            result is Ok <==> config.valid(),
            match result {
                Ok(engine) => {
                    &&& engine.wf()
                    &&& is_rounded_up(engine@.limit as int, config.ring_capacity as int)
                    &&& engine@ == (DepsView {
                        config,
                        queued: Seq::empty(),
                        limit: engine@.limit,
                        cache: CacheView::empty().merged_all(
                            logged_states(record_views(recovered@)),
                        ),
                        metrics: MetricsSnapshot::zero(),
                        lsn: LsnView::fresh(first_number(record_views(recovered@))).noted_all(
                            record_views(recovered@),
                            first_number(record_views(recovered@)),
                        ),
                        stop: false,
                    })
                },
                Err(text) => text@ == config.fault(),
            },
    {
        match config.validate() {
            Err(text) => Err(text),
            Ok(()) => {
                let ring = RingBuffer::new(config.ring_capacity);
                let mut cache = WriteBehindCache::new();
                let first: Lsn = replay(recovered, &mut cache);
                let engine = FluxEngine {
                    deps: WorkerDeps {
                        config,
                        ring,
                        cache,
                        metrics: Metrics::new(),
                        lsn: LsnState::resume(first, recovered),
                        stop: false,
                    },
                };
                Ok(engine)
            },
        }
    }

    /// Draws a number for a write and makes one attempt at the ring.
    fn accept(&mut self, player_id: PlayerId, version: u64, blob: Vec<u8>) -> (outcome:
        SubmitOutcome)
        requires
            old(self).wf(),
        ensures
            final(self).wf(),
            outcome == SubmitOutcome::Enqueued <==> old(self)@.queued.len() < old(self)@.limit,
            outcome == SubmitOutcome::Enqueued ==> final(self)@.queued == old(self)@.queued.push(
                (RequestView { player_id, version, blob: blob@, seq: old(self)@.lsn.next }),
            ),
            outcome == SubmitOutcome::Dropped ==> final(self)@.queued == old(self)@.queued,
            final(self)@.cache == old(self)@.cache,
            final(self)@.lsn.pending == old(self)@.lsn.pending,
            final(self)@ == old(self)@.submitted(player_id, version, blob@),
    {
        let seq: u64 = self.deps.lsn.alloc_one();
        match self.deps.ring.try_enqueue(WriteRequest { player_id, version, blob, seq }) {
            Ok(()) => SubmitOutcome::Enqueued,
            Err(_) => SubmitOutcome::Dropped,
        }
    }

    /// Counts a submission: an accepted one with the time that it took, of which
    /// the low 64 bits of nanoseconds are kept.
    pub fn record_submit(&mut self, outcome: SubmitOutcome, took: Span)
        requires
            old(self).wf(),
        ensures
            final(self).wf(),
            final(self)@ == (DepsView {
                metrics: counted(
                    old(self)@.metrics,
                    outcome,
                    (took.nanos % 0x1_0000_0000_0000_0000) as u64,
                ),
                ..old(self)@
            }),
    {
        match outcome {
            SubmitOutcome::Enqueued => {
                let nanos: u64 = (took.nanos % 0x1_0000_0000_0000_0000) as u64;
                self.deps.metrics.record_submit_enqueued(nanos);
            },
            SubmitOutcome::Dropped => self.deps.metrics.record_submit_dropped(),
        }
    }

    /// Submits a write without waiting for anything.
    ///
    /// The write is accepted exactly if the ring has room. How long it took is
    /// whatever the clock says.
    pub fn submit(&mut self, player_id: PlayerId, version: u64, blob: Vec<u8>) -> (outcome:
        SubmitOutcome)
        requires
            old(self).wf(),
        ensures
            final(self).wf(),
            outcome == SubmitOutcome::Enqueued <==> old(self)@.queued.len() < old(self)@.limit,
            outcome == SubmitOutcome::Enqueued ==> final(self)@.queued == old(self)@.queued.push(
                (RequestView { player_id, version, blob: blob@, seq: old(self)@.lsn.next }),
            ),
            outcome == SubmitOutcome::Dropped ==> final(self)@.queued == old(self)@.queued,
            final(self)@.cache == old(self)@.cache,
            final(self)@.lsn.pending == old(self)@.lsn.pending,
            exists|nanos: u64|
                final(self)@ == (DepsView {
                    metrics: #[trigger] counted(old(self)@.metrics, outcome, nanos),
                    ..old(self)@.submitted(player_id, version, blob@)
                }),
            outcome == SubmitOutcome::Enqueued ==> final(self)@.metrics.submits_enqueued
                == old(self)@.metrics.submits_enqueued.wrapping_add(1)
                && final(self)@.metrics.submits_dropped == old(self)@.metrics.submits_dropped,
            outcome == SubmitOutcome::Dropped ==> final(self)@.metrics.submits_dropped
                == old(self)@.metrics.submits_dropped.wrapping_add(1)
                && final(self)@.metrics.submits_enqueued == old(self)@.metrics.submits_enqueued,
    {
        let start = clock_now();
        let outcome = self.accept(player_id, version, blob);
        let took = clock_elapsed(&start);
        self.record_submit(outcome, took);
        outcome
    }

    /// Begins a durable submission: the record that it returns is to be appended
    /// to the log, and the outcome reported with [`FluxEngine::finish_durable`].
    pub fn submit_durable(&mut self, player_id: PlayerId, version: u64, blob: Vec<u8>) -> (write:
        DurableWrite)
        requires
            old(self).wf(),
        ensures
            final(self).wf(),
            write@ == (RecordView { lsn: old(self)@.lsn.next, player_id, version, blob: blob@ }),
            final(self)@ == (DepsView {
                lsn: old(self)@.lsn.advanced(1).noted(claim_of(write@, None)),
                ..old(self)@
            }),
            write@ == old(self)@.durable_record(player_id, version, blob@),
            final(self)@ == old(self)@.durable_begun(write@),
    {
        let at: Lsn = self.deps.lsn.alloc_one();
        DurableWrite::prepare(at, player_id, version, blob, &mut self.deps.lsn)
    }

    /// The record of a durable submission was logged, or was not.
    ///
    /// A logged write stays pending, and its record in the log, until the store
    /// has its content. It also goes into the ring if there is room; if there is
    /// none, the log alone holds it. A write that was not logged is not pending
    /// any more, and the error is handed on.
    pub fn finish_durable(
        &mut self,
        write: DurableWrite,
        logged: Result<Lsn, std::io::Error>,
    ) -> (result: Result<(), std::io::Error>)
        requires
            old(self).wf(),
        ensures
            final(self).wf(),
            match logged {
                Ok(_) => {
                    &&& result is Ok
                    &&& final(self)@ == (DepsView {
                        queued: if old(self)@.queued.len() < old(self)@.limit {
                            old(self)@.queued.push(request_of(write@))
                        } else {
                            old(self)@.queued
                        },
                        ..old(self)@
                    })
                },
                Err(e) => {
                    &&& result == Err::<(), _>(e)
                    &&& final(self)@ == (DepsView {
                        lsn: old(self)@.lsn.drained(write@.lsn),
                        ..old(self)@
                    })
                },
            },
            final(self)@ == old(self)@.durable_finished(write@, logged is Ok),
    {
        match logged {
            Err(e) => {
                write.append_failed(&mut self.deps.lsn);
                Err(e)
            },
            Ok(_) => {
                let _ = self.deps.ring.try_enqueue(write.into_request());
                Ok(())
            },
        }
    }

    /// The metrics at this moment.
    pub fn metrics(&self) -> (snapshot: MetricsSnapshot)
        ensures
            snapshot == self@.metrics,
    {
        self.deps.metrics.snapshot()
    }

    /// The cached state of `id`, if there is one: the newest that was drained
    /// from the ring, persisted or not.
    pub fn cache_get(&self, id: PlayerId) -> (state: Option<PlayerState>)
        requires
            self.wf(),
        ensures
            match state {
                Some(state) => self@.cache.entries.dom().contains(id) && state@
                    == self@.cache.entries[id],
                None => !self@.cache.entries.dom().contains(id),
            },
    {
        self.deps.cache.get(id)
    }

    /// Number of writes that are not persisted yet: those in the ring, and the
    /// dirty entries.
    pub fn pending(&self) -> (n: usize)
        requires
            self.wf(),
            self@.queued.len() + self@.cache.dirty.len() <= usize::MAX,
        ensures
            n == self@.queued.len() + self@.cache.dirty.len(),
    {
        self.deps.ring.len() + self.deps.cache.dirty_len()
    }

    /// The configuration.
    pub fn config(&self) -> (config: &FluxConfig)
        ensures
            *config == self@.config,
    {
        &self.deps.config
    }

    /// The next step of a flush that the caller waits for: a batch to be put
    /// through the log into the store, or the number of states persisted.
    pub fn flush_now(&mut self, run: &mut FlushRun) -> (step: FlushStep)
        requires
            old(self).wf(),
            old(self)@.config.flush_max_batch > 0,
            old(self)@.lsn.next + batch_size(
                filled(old(self)@.cache, old(self)@.queued).dirty.len(),
                old(self)@.config.flush_max_batch,
            ) <= u64::MAX + 1,
        ensures
            final(self).wf(),
            flush_stepped(old(self)@, old(run)@, step, final(self)@, final(run)@),
    {
        self.deps.flush_step(run)
    }

    /// Asks the worker to stop: its passes then drain and flush until nothing is
    /// left.
    pub fn shutdown(&mut self)
        requires
            old(self).wf(),
        ensures
            final(self).wf(),
            final(self)@ == (DepsView { stop: true, ..old(self)@ }),
    {
        self.deps.stop = true;
    }

    /// The parts that the worker works on.
    pub fn worker_side(&mut self) -> (deps: &mut WorkerDeps<RingBuffer, WriteBehindCache>)
        requires
            old(self).wf(),
        ensures
            deps.wf(),
            deps@ == old(self)@,
            final(deps).wf() ==> final(self).wf(),
            final(self)@ == final(deps)@,
    {
        &mut self.deps
    }
}

/// Every record that was found in the log is in the cache of a started engine,
/// still to be flushed, in its own version or a newer one; and, unless the
/// numbers are used up, every number drawn from then on is higher than its own.
pub proof fn law_recovered_records_are_replayed(records: Seq<RecordView>, i: int)
    requires
        0 <= i < records.len(),
    ensures
        ({
            let cache = CacheView::empty().merged_all(logged_states(records));
            let id = records[i].player_id;
            &&& cache.entries.dom().contains(id)
            &&& cache.entries[id].version >= records[i].version
            &&& cache.dirty.contains(id)
        }),
        highest_lsn(0, records) < u64::MAX ==> records[i].lsn < first_number(records),
{
    law_no_write_is_forgotten(CacheView::empty(), logged_states(records), i);
    assert(logged_states(records)[i] == records[i].state());
    lemma_highest_is_highest(records, i);
}

proof fn lemma_highest_is_highest(records: Seq<RecordView>, i: int)
    requires
        0 <= i < records.len(),
    ensures
        records[i].lsn <= highest_lsn(0, records),
    decreases records.len(),
{
    if i < records.len() - 1 {
        lemma_highest_is_highest(records.drop_last(), i);
    }
}

/// Submissions with these outcomes and times, one after the other.
pub open spec fn counted_all(
    m: MetricsSnapshot,
    outcomes: Seq<(SubmitOutcome, u64)>,
) -> MetricsSnapshot
    decreases outcomes.len(),
{
    if outcomes.len() == 0 {
        m
    } else {
        counted(
            counted_all(m, outcomes.drop_last()),
            outcomes.last().0,
            outcomes.last().1,
        )
    }
}

/// Every submission is counted once, as accepted or as dropped.
pub proof fn law_every_submission_is_counted(outcomes: Seq<(SubmitOutcome, u64)>)
    requires
        outcomes.len() <= u64::MAX,
    ensures
        ({
            let m = counted_all(MetricsSnapshot::zero(), outcomes);
            m.submits_enqueued + m.submits_dropped == outcomes.len()
        }),
    decreases outcomes.len(),
{
    if outcomes.len() > 0 {
        law_every_submission_is_counted(outcomes.drop_last());
    }
}

/// A submission with room in the ring queues exactly what the caller passed, behind
/// all that was queued; one without room queues nothing. Either way the number that
/// it drew is used up and nothing else changes.
pub proof fn law_submission_queues_what_was_passed(
    a: DepsView,
    player_id: PlayerId,
    version: u64,
    blob: Seq<u8>,
)
    ensures
        ({
            let b = a.submitted(player_id, version, blob);
            let room = a.queued.len() < a.limit;
            &&& room ==> b.queued.len() == a.queued.len() + 1
            &&& room ==> b.queued.last().player_id == player_id
            &&& room ==> b.queued.last().version == version
            &&& room ==> b.queued.last().blob == blob
            &&& room ==> b.queued.last().seq == a.lsn.next
            &&& room ==> b.queued.drop_last() == a.queued
            &&& !room ==> b.queued == a.queued
            &&& a.lsn.next < u64::MAX ==> b.lsn.next == a.lsn.next + 1
            &&& b.lsn.pending == a.lsn.pending
            &&& b.cache == a.cache
            &&& b.config == a.config
            &&& b.limit == a.limit
            &&& b.metrics == a.metrics
            &&& b.stop == a.stop
        }),
{
    let b = a.submitted(player_id, version, blob);
    if a.queued.len() < a.limit {
        assert(b.queued.drop_last() =~= a.queued);
    }
}

/// An accepted submission arrives: once the ring is drained, the cache holds for its
/// entity exactly the state that was submitted, or one of a higher version; and where
/// nothing newer is known, it is to be flushed.
pub proof fn law_submitted_write_reaches_the_cache(
    a: DepsView,
    player_id: PlayerId,
    version: u64,
    blob: Seq<u8>,
)
    requires
        a.cache.ok(),
        a.queued.len() < a.limit,
    ensures
        ({
            let b = a.submitted(player_id, version, blob);
            let cache = filled(b.cache, b.queued);
            let state = StateView { player_id, version, blob };
            &&& cache.entries.dom().contains(player_id)
            &&& cache.entries[player_id] == state || cache.entries[player_id].version > version
            &&& cache.entries[player_id] == state ==> cache.dirty.contains(player_id)
        }),
{
    let b = a.submitted(player_id, version, blob);
    let states = requested_states(b.queued);
    let last = states.len() - 1;
    law_no_write_is_forgotten(b.cache, states, last);
    assert(states[last].player_id == player_id);
    assert(states.drop_last() =~= requested_states(a.queued));
}

/// What is queued earlier for an entity loses to a later submission of the same or a
/// higher version, and to no other: two submissions in a row leave the later one
/// unless its version is lower.
pub proof fn law_later_submission_wins(
    a: DepsView,
    player_id: PlayerId,
    v1: u64,
    b1: Seq<u8>,
    v2: u64,
    b2: Seq<u8>,
)
    requires
        a.cache.ok(),
        a.queued.len() + 1 < a.limit,
        !a.cache.entries.dom().contains(player_id),
        forall|i: int|
            0 <= i < a.queued.len() ==> (#[trigger] a.queued[i]).player_id != player_id,
    ensures
        ({
            let b = a.submitted(player_id, v1, b1).submitted(player_id, v2, b2);
            filled(b.cache, b.queued).entries[player_id] == if v2 >= v1 {
                StateView { player_id, version: v2, blob: b2 }
            } else {
                StateView { player_id, version: v1, blob: b1 }
            }
        }),
{
    let once = a.submitted(player_id, v1, b1);
    let twice = once.submitted(player_id, v2, b2);
    let s0 = requested_states(a.queued);
    let s1 = requested_states(once.queued);
    let s2 = requested_states(twice.queued);
    assert(s1.drop_last() =~= s0);
    assert(s2.drop_last() =~= s1);
    assert(!holds_player(s0, player_id)) by {
        if holds_player(s0, player_id) {
            let i = choose|i: int| 0 <= i < s0.len() && (#[trigger] s0[i]).player_id == player_id;
            assert(a.queued[i].player_id == player_id);
        }
    }
    lemma_untouched(a.cache, s0, player_id);
    let first = StateView { player_id, version: v1, blob: b1 };
    let second = StateView { player_id, version: v2, blob: b2 };
    assert(s1.last() == first);
    assert(s2.last() == second);
    assert(a.cache.merged_all(s1) == a.cache.merged_all(s0).merged(first));
    assert(a.cache.merged_all(s2) == a.cache.merged_all(s1).merged(second));
    assert(a.cache.merged_all(s1).entries[player_id] == first);
}

/// The request of a durable submission carries exactly what was logged, under the
/// number of its record.
pub proof fn law_durable_request_carries_the_record(r: RecordView)
    ensures
        request_of(r).player_id == r.player_id,
        request_of(r).version == r.version,
        request_of(r).blob == r.blob,
        request_of(r).seq == r.lsn,
        request_of(r).state() == r.state(),
{
}

/// How many submissions had this outcome.
pub open spec fn outcome_count(outcomes: Seq<(SubmitOutcome, u64)>, outcome: SubmitOutcome) -> nat
    decreases outcomes.len(),
{
    if outcomes.len() == 0 {
        0
    } else {
        outcome_count(outcomes.drop_last(), outcome) + if outcomes.last().0 == outcome {
            1nat
        } else {
            0
        }
    }
}

/// Each outcome has its own counter.
pub proof fn law_outcomes_are_counted_apart(outcomes: Seq<(SubmitOutcome, u64)>)
    requires
        outcomes.len() <= u64::MAX,
    ensures
        counted_all(MetricsSnapshot::zero(), outcomes).submits_enqueued == outcome_count(
            outcomes,
            SubmitOutcome::Enqueued,
        ),
        counted_all(MetricsSnapshot::zero(), outcomes).submits_dropped == outcome_count(
            outcomes,
            SubmitOutcome::Dropped,
        ),
        outcome_count(outcomes, SubmitOutcome::Enqueued) <= outcomes.len(),
        outcome_count(outcomes, SubmitOutcome::Dropped) <= outcomes.len(),
    decreases outcomes.len(),
{
    if outcomes.len() > 0 {
        law_outcomes_are_counted_apart(outcomes.drop_last());
    }
}

/// Replaying a log leaves, for every entity in it, exactly the state of the record that
/// wins: the one of the highest version, and the last of several.
pub proof fn law_replay_restores_the_winning_records(records: Seq<RecordView>, i: int)
    requires
        0 <= i < records.len(),
    ensures
        ({
            let cache = CacheView::empty().merged_all(logged_states(records));
            let id = records[i].player_id;
            &&& cache.entries.dom().contains(id)
            &&& exists|k: int|
                0 <= k < records.len() && (#[trigger] records[k]).player_id == id
                    && records[k].version == cache.entries[id].version && records[k].blob
                    == cache.entries[id].blob && (forall|j: int|
                    k < j < records.len() && (#[trigger] records[j]).player_id == id
                        ==> records[j].version < records[k].version)
        }),
{
    let states = logged_states(records);
    let id = records[i].player_id;
    assert(states[i].player_id == id);
    assert(holds_player(states, id));
    law_last_write_wins(CacheView::empty(), states, id);
    let held = CacheView::empty().merged_all(states).entries[id];
    let k = choose|k: int| #[trigger] wins_at(states, id, k) && states[k] == held;
    assert(records[k].player_id == id);
    assert forall|j: int| k < j < records.len() && (#[trigger] records[j]).player_id
        == id implies records[j].version < records[k].version by {
        assert(states[j].player_id == id);
    }
}

/// The first number is one more than the highest in the log: higher than every one, and
/// the next after one of them, or 1. Only where the log holds the last number of all
/// can that not be, and then it is the last number.
pub proof fn law_first_number_follows_the_highest(records: Seq<RecordView>)
    ensures
        ({
            let first = first_number(records);
            &&& forall|i: int|
                0 <= i < records.len() ==> (#[trigger] records[i]).lsn < first || records[i].lsn
                    == u64::MAX
            &&& {
                ||| first == 1
                ||| exists|k: int| 0 <= k < records.len() && (#[trigger] records[k]).lsn + 1 == first
                ||| first == u64::MAX && exists|k: int|
                    0 <= k < records.len() && (#[trigger] records[k]).lsn == u64::MAX
            }
        }),
{
    law_highest_is_the_highest(0, records);
    let top = highest_lsn(0, records);
    if top != 0 {
        let n = choose|n: int| 0 <= n < records.len() && (#[trigger] records[n]).lsn == top;
        assert(records[n].lsn == top);
    }
}

/// A durable submission is logged exactly as it was passed, under a number of its own
/// that is pending before it is logged: no checkpoint goes that far. Nothing is queued
/// yet.
pub proof fn law_durable_submission_is_logged_as_passed(
    a: DepsView,
    player_id: PlayerId,
    version: u64,
    blob: Seq<u8>,
    proposed: Lsn,
    safe: Lsn,
)
    requires
        a.durable_begun(a.durable_record(player_id, version, blob)).lsn.watermark(
            proposed,
            Some(safe),
        ),
    ensures
        ({
            let r = a.durable_record(player_id, version, blob);
            let b = a.durable_begun(r);
            &&& r.player_id == player_id
            &&& r.version == version
            &&& r.blob == blob
            &&& r.lsn == a.lsn.next
            &&& b.lsn.holds(r.lsn)
            &&& safe < r.lsn
            &&& a.lsn.next < u64::MAX ==> b.lsn.next > r.lsn
            &&& b.queued == a.queued
            &&& b.cache == a.cache
        }),
{
    let r = a.durable_record(player_id, version, blob);
    let owed = claim_of(r, None);
    law_marking_and_draining(a.lsn.advanced(1), owed, 0, r.lsn);
    law_watermark_is_the_highest_safe_number(a.durable_begun(r).lsn, proposed, Some(safe));
}

/// A durable submission that was logged stays pending, and its content is queued behind
/// all else if there is room and dropped from the ring alone if there is none; one that
/// was not logged is neither pending nor queued.
pub proof fn law_durable_submission_is_finished_as_logged(a: DepsView, r: RecordView, other: Lsn)
    ensures
        ({
            let ok = a.durable_finished(r, true);
            let bad = a.durable_finished(r, false);
            let room = a.queued.len() < a.limit;
            &&& ok.lsn == a.lsn
            &&& room ==> ok.queued.len() == a.queued.len() + 1 && ok.queued.drop_last() == a.queued
            &&& room ==> ok.queued.last().player_id == r.player_id
            &&& room ==> ok.queued.last().version == r.version
            &&& room ==> ok.queued.last().blob == r.blob
            &&& room ==> ok.queued.last().seq == r.lsn
            &&& !room ==> ok.queued == a.queued
            &&& ok.cache == a.cache && bad.cache == a.cache
            &&& bad.queued == a.queued
            &&& !bad.lsn.holds(r.lsn)
            &&& other != r.lsn ==> bad.lsn.holds(other) == a.lsn.holds(other)
            &&& bad.lsn.next == a.lsn.next
        }),
{
    law_marking_and_draining(a.lsn, claim_of(r, None), 0, other);
    if a.queued.len() < a.limit {
        assert(a.durable_finished(r, true).queued.drop_last() =~= a.queued);
    }
}

/// An accepted write is counted with the time that it took, and one that was dropped
/// without any.
pub proof fn law_times_of_accepted_writes_are_kept(m: MetricsSnapshot, nanos: u64)
    requires
        m.sum_submit_nanos + nanos <= u64::MAX,
    ensures
        counted(m, SubmitOutcome::Enqueued, nanos).sum_submit_nanos == m.sum_submit_nanos + nanos,
        counted(m, SubmitOutcome::Enqueued, nanos).max_submit_nanos >= nanos,
        counted(m, SubmitOutcome::Enqueued, nanos).max_submit_nanos >= m.max_submit_nanos,
        counted(m, SubmitOutcome::Dropped, nanos).sum_submit_nanos == m.sum_submit_nanos,
        counted(m, SubmitOutcome::Dropped, nanos).max_submit_nanos == m.max_submit_nanos,
{
}

/// A log is replayed record by record, in order, each with its own identity, version and
/// payload; an entity that is in no record is not in the cache.
pub proof fn law_replay_makes_nothing_up(records: Seq<RecordView>, id: PlayerId)
    requires
        forall|i: int| 0 <= i < records.len() ==> (#[trigger] records[i]).player_id != id,
    ensures
        logged_states(records).len() == records.len(),
        forall|i: int|
            0 <= i < records.len() ==> (#[trigger] logged_states(records)[i]).player_id
                == records[i].player_id && logged_states(records)[i].version
                == records[i].version && logged_states(records)[i].blob == records[i].blob,
        !CacheView::empty().merged_all(logged_states(records)).entries.dom().contains(id),
        !CacheView::empty().merged_all(logged_states(records)).dirty.contains(id),
{
    let states = logged_states(records);
    if holds_player(states, id) {
        let i = choose|i: int| 0 <= i < states.len() && (#[trigger] states[i]).player_id == id;
        assert(records[i].player_id == id);
    }
    lemma_untouched(CacheView::empty(), states, id);
}

} // verus!
