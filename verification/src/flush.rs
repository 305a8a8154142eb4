//! One batch on its way from the cache through the log into the store.
//!
//! The batch changes its type as it goes, so that the order cannot be broken: a
//! [`StagedBatch`] gives access to the records to be logged and nothing else;
//! only once they are in the log does it become a [`LoggedBatch`], which gives
//! access to the states to be persisted; only once the store has accepted them
//! does it become a [`PersistedBatch`], which says how far the log may be
//! checkpointed. A batch that fails anywhere goes back into the cache.
//!
//! The numbers of a batch are pending from before it is logged until the store
//! has accepted its states, whether in this batch or in a later one: where the
//! store refuses the batch, its records stay in the log. A batch is to be numbered
//! before anything else comes into the cache that it was taken from.

use crate::domain::{
    record_views, state_views, Cache, Lsn, PlayerState, RecordView, StateView, WalRecord,
};
use crate::error::{FluxError, StoreError, StoreErrorView};
use crate::lsn::LsnState;
use crate::metrics::{Metrics, MetricsSnapshot};
use vstd::prelude::*;
use vstd::slice::slice_to_vec;

verus! {

/// Who drives a flush.
#[derive(Debug, Clone, Copy, PartialEq, Eq, Structural)]
pub enum Driver {
    /// The background worker: a failed append counts as a store error, and a
    /// failed checkpoint is of no consequence.
    Worker,
    /// A caller that waits for the flush: every failure is reported to it.
    Caller,
}

/// The records that log `states` under consecutive numbers from `first` on.
pub open spec fn stamped(states: Seq<StateView>, first: Lsn) -> Seq<RecordView> {
    Seq::new(
        states.len(),
        |i: int|
            RecordView {
                lsn: (first + i) as u64,
                player_id: states[i].player_id,
                version: states[i].version,
                blob: states[i].blob,
            },
    )
}

/// The highest number of a block of `count` from `first` on; 0 for none.
pub open spec fn last_of_block(first: Lsn, count: nat) -> Lsn {
    if count == 0 {
        0
    } else {
        (first + count - 1) as u64
    }
}

/// A batch that was taken from the cache and is to be logged.
#[derive(Debug)]
pub struct StagedBatch {
    driver: Driver,
    states: Vec<PlayerState>,
    records: Vec<WalRecord>,
    highest_lsn: Lsn,
}

/// A [`StagedBatch`] as its callers see it.
#[verifier::ext_equal]
pub struct StagedView {
    pub driver: Driver,
    pub states: Seq<StateView>,
    pub first_lsn: Lsn,
}

impl StagedView {
    /// The batch once it is in the log, which reports `confirmed` as its highest
    /// number.
    pub open spec fn logged(self, confirmed: Lsn) -> LoggedView {
        LoggedView {
            driver: self.driver,
            states: self.states,
            first_lsn: self.first_lsn,
            checkpoint_lsn: if self.driver == Driver::Worker && confirmed == 0 {
                last_of_block(self.first_lsn, self.states.len())
            } else {
                confirmed
            },
            failures: 0,
        }
    }
}

/// A batch that is in the log and is to be persisted.
#[derive(Debug)]
pub struct LoggedBatch {
    driver: Driver,
    states: Vec<PlayerState>,
    first_lsn: Lsn,
    checkpoint_lsn: Lsn,
    failures: u32,
}

/// A [`LoggedBatch`] as its callers see it.
#[verifier::ext_equal]
pub struct LoggedView {
    pub driver: Driver,
    pub states: Seq<StateView>,
    /// The number of the first record, by which the batch goes.
    pub first_lsn: Lsn,
    /// How far the log may be checkpointed once the batch is persisted, but for
    /// pending records.
    pub checkpoint_lsn: Lsn,
    /// How many attempts at the store have failed.
    pub failures: u32,
}

impl LoggedView {
    /// Whether a failure is worth another attempt, of `limit` at most.
    pub open spec fn worth_retry(self, error: StoreErrorView, limit: u32) -> bool {
        error.retryable() && self.failures + 1 < limit
    }

    /// The batch after one more failed attempt.
    pub open spec fn after_failure(self) -> LoggedView {
        LoggedView { failures: (self.failures + 1) as u32, ..self }
    }
}

/// A batch that is in the store.
#[derive(Debug)]
pub struct PersistedBatch {
    driver: Driver,
    count: usize,
    watermark: Option<Lsn>,
}

/// A [`PersistedBatch`] as its callers see it.
pub struct PersistedView {
    pub driver: Driver,
    pub count: usize,
    pub watermark: Option<Lsn>,
}

/// What follows from the store's reply.
#[derive(Debug)]
pub enum Verdict {
    /// The batch is persisted.
    Persisted(PersistedBatch),
    /// The batch is to be handed to the store once more, after a pause.
    Retry(LoggedBatch),
    /// The batch is back in the cache.
    Failed(StoreError),
}

impl View for StagedBatch {
    type V = StagedView;

    closed spec fn view(&self) -> StagedView {
        StagedView {
            driver: self.driver,
            states: state_views(self.states@),
            first_lsn: if self.records@.len() == 0 {
                0
            } else {
                self.records@[0].lsn
            },
        }
    }
}

impl View for LoggedBatch {
    type V = LoggedView;

    closed spec fn view(&self) -> LoggedView {
        LoggedView {
            driver: self.driver,
            states: state_views(self.states@),
            first_lsn: self.first_lsn,
            checkpoint_lsn: self.checkpoint_lsn,
            failures: self.failures,
        }
    }
}

impl View for PersistedBatch {
    type V = PersistedView;

    closed spec fn view(&self) -> PersistedView {
        PersistedView { driver: self.driver, count: self.count, watermark: self.watermark }
    }
}

impl StagedBatch {
    /// The records are those of the states, under consecutive numbers.
    #[verifier::type_invariant]
    spec fn inv(&self) -> bool {
        &&& self.records@.len() == self.states@.len()
        &&& record_views(self.records@) == stamped(self@.states, self@.first_lsn)
        &&& self.highest_lsn == last_of_block(self@.first_lsn, self.states@.len())
        &&& self@.first_lsn + self.states@.len() <= u64::MAX + 1
    }

    /// Stages `states`, with their records numbered from `first_lsn` on. The
    /// numbers are pending from now on.
    pub fn stage(
        driver: Driver,
        states: Vec<PlayerState>,
        first_lsn: Lsn,
        lsn: &mut LsnState,
    ) -> (batch: StagedBatch)
        requires
            states@.len() > 0,
            first_lsn + states@.len() <= u64::MAX + 1,
        ensures
            batch@ == (StagedView { driver, states: state_views(states@), first_lsn }),
            final(lsn)@ == old(lsn)@.noted_all(
                stamped(state_views(states@), first_lsn),
                first_lsn,
            ),
    {
        let ghost views = state_views(states@);
        let mut records: Vec<WalRecord> = Vec::with_capacity(states.len());
        let mut highest_lsn: Lsn = 0;
        let mut i: usize = 0;
        assert(lsn@ =~= old(lsn)@.noted_all(stamped(views, first_lsn).take(0), first_lsn));
        while i < states.len()
            invariant
                i <= states@.len(),
                views == state_views(states@),
                lsn@ == old(lsn)@.noted_all(
                    stamped(views, first_lsn).take(i as int),
                    first_lsn,
                ),
                first_lsn + states@.len() <= u64::MAX + 1,
                record_views(records@) == stamped(views, first_lsn).take(i as int),
                records@.len() == i,
                highest_lsn == last_of_block(first_lsn, i as nat),
            decreases states@.len() - i,
        {
            let number: Lsn = first_lsn + i as u64;
            highest_lsn = number;
            lsn.note_logged(
                number,
                states[i].player_id,
                states[i].version,
                Some(first_lsn),
            );
            let record = WalRecord {
                lsn: number,
                player_id: states[i].player_id,
                version: states[i].version,
                blob: slice_to_vec(states[i].blob.as_slice()),
            };
            let ghost before = record_views(records@);
            records.push(record);
            proof {
                assert(record_views(records@) =~= before.push(record@));
                assert(record@ == stamped(views, first_lsn)[i as int]);
                assert(stamped(views, first_lsn).take(i + 1) =~= stamped(views, first_lsn).take(
                    i as int,
                ).push(record@));
                assert(lsn@ =~= old(lsn)@.noted_all(
                    stamped(views, first_lsn).take(i + 1),
                    first_lsn,
                ));
            }
            i = i + 1;
        }
        proof {
            assert(stamped(views, first_lsn).take(i as int) =~= stamped(views, first_lsn));
            assert(record_views(records@)[0] == stamped(views, first_lsn)[0]);
        }
        StagedBatch { driver, states, records, highest_lsn }
    }

    /// The records to be appended to the log.
    pub fn records(&self) -> (records: &[WalRecord])
        ensures
            record_views(records@) == stamped(self@.states, self@.first_lsn),
    {
        proof {
            use_type_invariant(self);
        }
        self.records.as_slice()
    }

    /// The log could not take the records: the store was not touched, and the
    /// states go back into the cache. Their numbers stay pending, since some of
    /// the records may be in the log.
    pub fn append_failed<C: Cache>(
        self,
        error: std::io::Error,
        cache: &mut C,
        metrics: &mut Metrics,
    ) -> (reported: FluxError)
        requires
            old(cache).wf(),
        ensures
            final(cache).wf(),
            final(cache).model() == old(cache).model().given_back_all(self@.states),
            final(metrics)@ == match self@.driver {
                Driver::Worker => old(metrics)@.failed(),
                Driver::Caller => old(metrics)@,
            },
            reported == FluxError::Io(error),
    {
        if self.driver == Driver::Worker {
            metrics.record_store_error();
        }
        cache.requeue_dirty(self.states);
        FluxError::Io(error)
    }

    /// The records are in the log, which reports `confirmed` as its highest
    /// number; the append took `nanos`.
    pub fn appended(self, confirmed: Lsn, nanos: u64, metrics: &mut Metrics) -> (batch: LoggedBatch)
        ensures
            final(metrics)@ == old(metrics)@.logged(self@.states.len() as usize),
            batch@ == (LoggedView {
                driver: self@.driver,
                states: self@.states,
                first_lsn: self@.first_lsn,
                checkpoint_lsn: if self@.driver == Driver::Worker && confirmed == 0 {
                    last_of_block(self@.first_lsn, self@.states.len())
                } else {
                    confirmed
                },
                failures: 0,
            }),
            batch@ == self@.logged(confirmed),
    {
        proof {
            use_type_invariant(&self);
        }
        metrics.record_wal_append(self.records.len(), nanos);
        let checkpoint_lsn: Lsn = if self.driver == Driver::Worker && confirmed == 0 {
            self.highest_lsn
        } else {
            confirmed
        };
        let first_lsn: Lsn = if self.records.len() == 0 {
            0
        } else {
            self.records[0].lsn
        };
        LoggedBatch {
            driver: self.driver,
            states: self.states,
            first_lsn,
            checkpoint_lsn,
            failures: 0,
        }
    }
}

impl LoggedBatch {
    /// The states to be persisted.
    pub fn states(&self) -> (states: &[PlayerState])
        ensures
            state_views(states@) == self@.states,
    {
        self.states.as_slice()
    }

    /// The store has replied to an attempt. Accepted states settle the numbers
    /// that wait for them. A failure is worth another attempt if it is not fatal
    /// and fewer than `limit` attempts were made; if it is not, the states go back
    /// into the cache, and their numbers stay pending.
    pub fn replied<C: Cache>(
        self,
        reply: Result<(), StoreError>,
        limit: u32,
        cache: &mut C,
        lsn: &mut LsnState,
        metrics: &mut Metrics,
    ) -> (verdict: Verdict)
        requires
            old(cache).wf(),
        ensures
            final(cache).wf(),
            match reply {
                Ok(()) => {
                    &&& verdict matches Verdict::Persisted(batch)
                    &&& batch@.driver == self@.driver
                    &&& batch@.count == self@.states.len()
                    &&& final(lsn)@ == old(lsn)@.after_accept(self@.states, self@.first_lsn)
                    &&& final(lsn)@.watermark(self@.checkpoint_lsn, batch@.watermark)
                    &&& final(cache).model() == old(cache).model()
                    &&& final(metrics)@ == old(metrics)@
                },
                Err(e) => if self@.worth_retry(e@, limit) {
                    &&& verdict matches Verdict::Retry(batch)
                    &&& batch@ == self@.after_failure()
                    &&& final(lsn)@ == old(lsn)@
                    &&& final(cache).model() == old(cache).model()
                    &&& final(metrics)@ == old(metrics)@.retried()
                } else {
                    &&& verdict == Verdict::Failed(e)
                    &&& final(lsn)@ == old(lsn)@
                    &&& final(cache).model() == old(cache).model().given_back_all(self@.states)
                    &&& final(metrics)@ == old(metrics)@.failed()
                },
            },
            reply is Ok <==> verdict is Persisted,
            reply matches Err(e) ==> {
                &&& verdict is Retry <==> !(e is Fatal) && self@.failures + 1 < limit
                &&& verdict matches Verdict::Retry(batch) ==> {
                    &&& batch@.states == self@.states
                    &&& batch@.driver == self@.driver
                    &&& batch@.first_lsn == self@.first_lsn
                    &&& batch@.checkpoint_lsn == self@.checkpoint_lsn
                    &&& batch@.failures == self@.failures + 1
                }
            },
    {
        match reply {
            Ok(()) => {
                lsn.note_accepted(self.states.as_slice(), self.first_lsn);
                let watermark = lsn.checkpoint_watermark(self.checkpoint_lsn);
                Verdict::Persisted(
                    PersistedBatch { driver: self.driver, count: self.states.len(), watermark },
                )
            },
            Err(e) => {
                let failures: u32 = self.failures.saturating_add(1);
                if !e.is_retryable() || failures >= limit {
                    metrics.record_store_error();
                    cache.requeue_dirty(self.states);
                    Verdict::Failed(e)
                } else {
                    metrics.record_store_retry();
                    Verdict::Retry(
                        LoggedBatch {
                            driver: self.driver,
                            states: self.states,
                            first_lsn: self.first_lsn,
                            checkpoint_lsn: self.checkpoint_lsn,
                            failures,
                        },
                    )
                }
            },
        }
    }
}

impl PersistedBatch {
    /// How far the log is to be checkpointed now; not at all for `None`.
    pub fn watermark(&self) -> (watermark: Option<Lsn>)
        ensures
            watermark == self@.watermark,
    {
        self.watermark
    }

    /// The checkpoint was made, or none was to be made, or it failed; the whole
    /// flush took `nanos`. Returns how many states were persisted.
    pub fn checkpointed(
        self,
        result: Result<(), std::io::Error>,
        nanos: u64,
        metrics: &mut Metrics,
    ) -> (persisted: Result<usize, FluxError>)
        ensures
            match (self@.driver, result) {
                (Driver::Caller, Err(e)) => persisted == Err::<usize, _>(FluxError::Io(e))
                    && final(metrics)@ == old(metrics)@,
                _ => persisted == Ok::<_, FluxError>(self@.count) && final(metrics)@ == old(
                    metrics,
                )@.flushed(self@.count, nanos),
            },
    {
        match result {
            Err(e) if self.driver == Driver::Caller => Err(FluxError::Io(e)),
            _ => {
                metrics.record_flush(self.count, nanos);
                Ok(self.count)
            },
        }
    }
}

/// What is handed to the store is what was logged: the records of a batch hold
/// its states, in order, under numbers that rise one by one.
pub proof fn law_store_sees_what_was_logged(states: Seq<StateView>, first: Lsn, i: int)
    requires
        first + states.len() <= u64::MAX + 1,
        0 <= i < states.len(),
    ensures
        stamped(states, first).len() == states.len(),
        stamped(states, first)[i].state() == states[i],
        stamped(states, first)[i].lsn == first + i,
        stamped(states, first)[i].lsn <= last_of_block(first, states.len()),
{
}

/// Whether `batches` is a batch through its attempts at the store, with these
/// failures answered by another attempt each, and `metrics` what was counted.
pub open spec fn retry_run(
    batches: Seq<LoggedView>,
    metrics: Seq<MetricsSnapshot>,
    failures: Seq<StoreErrorView>,
    limit: u32,
) -> bool {
    &&& batches.len() == failures.len() + 1
    &&& metrics.len() == failures.len() + 1
    &&& batches[0].failures == 0
    &&& forall|k: int|
        0 <= k < failures.len() ==> batches[k].worth_retry(#[trigger] failures[k], limit)
            && batches[k + 1] == batches[k].after_failure() && metrics[k + 1]
            == metrics[k].retried()
}

/// A batch is handed to the store at most `limit` times, but at least once: once,
/// and once more for every failure that was worth it. Each of those is counted as a retry, so that
/// the retries are one less than the attempts.
pub proof fn law_attempts_are_bounded_and_counted(
    batches: Seq<LoggedView>,
    metrics: Seq<MetricsSnapshot>,
    failures: Seq<StoreErrorView>,
    limit: u32,
)
    requires
        retry_run(batches, metrics, failures, limit),
        metrics[0].store_retries + failures.len() <= u64::MAX,
    ensures
        batches.len() <= if limit > 1 {
            limit as int
        } else {
            1
        },
        batches.last().failures == failures.len(),
        batches.last().states == batches[0].states,
        metrics.last().store_retries - metrics[0].store_retries == batches.len() - 1,
    decreases failures.len(),
{
    if failures.len() > 0 {
        let k = failures.len() - 1;
        let early = failures.drop_last();
        let b = batches.drop_last();
        let m = metrics.drop_last();
        assert forall|j: int| 0 <= j < early.len() implies b[j].worth_retry(
            #[trigger] early[j],
            limit,
        ) && b[j + 1] == b[j].after_failure() && m[j + 1] == m[j].retried() by {
            assert(batches[j].worth_retry(failures[j], limit));
        }
        law_attempts_are_bounded_and_counted(b, m, early, limit);
        assert(batches[k].worth_retry(failures[k], limit));
    }
}

/// The batch after so many failures that were answered by another attempt each.
pub open spec fn after_failures(batch: LoggedView, n: nat) -> LoggedView
    decreases n,
{
    if n == 0 {
        batch
    } else {
        after_failures(batch, (n - 1) as nat).after_failure()
    }
}

/// A batch whose attempts all fail, be it that the store is unreachable or that it
/// refuses, and none fatally, is handed to the store exactly as often as the limit
/// says, and once where the limit is lower: the failure of an attempt is the last
/// exactly if as many attempts were made. A fatal failure is the last at once. All
/// attempts are at the same states.
pub proof fn law_retryable_failures_use_up_the_limit(
    batch: LoggedView,
    error: StoreErrorView,
    n: nat,
    limit: u32,
)
    requires
        batch.failures == 0,
        n < limit || n == 0,
    ensures
        ({
            let now = after_failures(batch, n);
            let attempts = n + 1;
            &&& now.failures == n
            &&& now.states == batch.states
            &&& now.first_lsn == batch.first_lsn
            &&& now.checkpoint_lsn == batch.checkpoint_lsn
            &&& now.driver == batch.driver
            &&& error is Unavailable || error is Transient ==> (now.worth_retry(error, limit)
                <==> attempts < limit)
            &&& error is Fatal ==> !now.worth_retry(error, limit)
        }),
    decreases n,
{
    if n > 0 {
        law_retryable_failures_use_up_the_limit(batch, error, (n - 1) as nat, limit);
    }
}

/// A batch that fails without a fatal failure has been handed to the store exactly as
/// often as the limit says, and once where the limit is lower.
pub proof fn law_batch_fails_after_exactly_the_limit(
    batches: Seq<LoggedView>,
    metrics: Seq<MetricsSnapshot>,
    failures: Seq<StoreErrorView>,
    last: StoreErrorView,
    limit: u32,
)
    requires
        retry_run(batches, metrics, failures, limit),
        !(last is Fatal),
        !batches.last().worth_retry(last, limit),
    ensures
        batches.len() == if limit > 1 {
            limit as int
        } else {
            1
        },
{
    lemma_failures_counted(batches, metrics, failures, limit, failures.len() as int);
    if failures.len() > 0 {
        let k = failures.len() - 1;
        lemma_failures_counted(batches, metrics, failures, limit, k);
        assert(batches[k].worth_retry(failures[k], limit));
    }
}

proof fn lemma_failures_counted(
    batches: Seq<LoggedView>,
    metrics: Seq<MetricsSnapshot>,
    failures: Seq<StoreErrorView>,
    limit: u32,
    k: int,
)
    requires
        retry_run(batches, metrics, failures, limit),
        0 <= k <= failures.len(),
    ensures
        batches[k].failures == k,
    decreases k,
{
    if k > 0 {
        lemma_failures_counted(batches, metrics, failures, limit, k - 1);
        assert(batches[k - 1].worth_retry(failures[k - 1], limit));
        assert(batches[k - 1 + 1] == batches[k - 1].after_failure());
    }
}

/// The highest number of a block is that of its last record.
pub proof fn law_block_ends_with_its_last_record(states: Seq<StateView>, first: Lsn)
    requires
        states.len() > 0,
        first + states.len() <= u64::MAX + 1,
    ensures
        last_of_block(first, states.len()) == first + states.len() - 1,
        stamped(states, first).last().lsn == last_of_block(first, states.len()),
        stamped(states, first)[0].lsn == first,
        forall|i: int|
            0 <= i < states.len() ==> (#[trigger] stamped(states, first)[i]).player_id
                == states[i].player_id && stamped(states, first)[i].version == states[i].version
                && stamped(states, first)[i].blob == states[i].blob,
{
}

/// A batch that was logged is persisted with the states that were logged, with no
/// attempt made yet; the log is to be checkpointed as far as it confirmed, and the
/// worker goes by its own last number where the log confirms nothing.
pub proof fn law_logged_batch_is_the_staged_one(batch: StagedView, confirmed: Lsn)
    requires
        batch.states.len() > 0,
        batch.first_lsn + batch.states.len() <= u64::MAX + 1,
    ensures
        ({
            let logged = batch.logged(confirmed);
            &&& logged.states == batch.states
            &&& logged.driver == batch.driver
            &&& logged.first_lsn == batch.first_lsn
            &&& logged.failures == 0
            &&& confirmed != 0 ==> logged.checkpoint_lsn == confirmed
            &&& confirmed == 0 && batch.driver is Caller ==> logged.checkpoint_lsn == 0
            &&& confirmed == 0 && batch.driver is Worker ==> logged.checkpoint_lsn
                == batch.first_lsn + batch.states.len() - 1
        }),
{
}

} // verus!
