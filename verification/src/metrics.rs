//! Counters and gauges of the pipeline.
//!
//! Counters wrap around at the end of their 64 bits.

use vstd::prelude::*;

verus! {

/// The counters and gauges of the pipeline.
#[derive(Debug, Clone, Copy, PartialEq, Eq, Structural)]
pub struct Metrics {
    submits_enqueued: u64,
    submits_dropped: u64,
    max_submit_nanos: u64,
    sum_submit_nanos: u64,
    flushes: u64,
    records_flushed: u64,
    max_flush_nanos: u64,
    wal_appends: u64,
    wal_records: u64,
    store_errors: u64,
    store_retries: u64,
}

/// A copy of the metrics at one moment.
#[derive(Debug, Clone, Copy, PartialEq, Eq, Structural)]
pub struct MetricsSnapshot {
    /// Writes accepted by `submit`.
    pub submits_enqueued: u64,
    /// Writes dropped by `submit` because the ring was full.
    pub submits_dropped: u64,
    /// Longest `submit`, in nanoseconds.
    pub max_submit_nanos: u64,
    /// Sum over all `submit`s, in nanoseconds.
    pub sum_submit_nanos: u64,
    /// Completed flushes.
    pub flushes: u64,
    /// Records persisted by all flushes.
    pub records_flushed: u64,
    /// Longest flush, in nanoseconds.
    pub max_flush_nanos: u64,
    /// Appends to the log.
    pub wal_appends: u64,
    /// Records appended to the log.
    pub wal_records: u64,
    /// Store failures, after retries.
    pub store_errors: u64,
    /// Retries against the store.
    pub store_retries: u64,
}

impl MetricsSnapshot {
    /// All zero.
    pub open spec fn zero() -> MetricsSnapshot {
        MetricsSnapshot {
            submits_enqueued: 0,
            submits_dropped: 0,
            max_submit_nanos: 0,
            sum_submit_nanos: 0,
            flushes: 0,
            records_flushed: 0,
            max_flush_nanos: 0,
            wal_appends: 0,
            wal_records: 0,
            store_errors: 0,
            store_retries: 0,
        }
    }

    /// After a write that was accepted within `nanos`.
    pub open spec fn enqueued(self, nanos: u64) -> MetricsSnapshot {
        MetricsSnapshot {
            submits_enqueued: self.submits_enqueued.wrapping_add(1),
            sum_submit_nanos: self.sum_submit_nanos.wrapping_add(nanos),
            max_submit_nanos: peak(self.max_submit_nanos, nanos),
            ..self
        }
    }

    /// After a write that was dropped.
    pub open spec fn dropped(self) -> MetricsSnapshot {
        MetricsSnapshot { submits_dropped: self.submits_dropped.wrapping_add(1), ..self }
    }

    /// After a flush of `batch_len` records within `nanos`.
    pub open spec fn flushed(self, batch_len: usize, nanos: u64) -> MetricsSnapshot {
        MetricsSnapshot {
            flushes: self.flushes.wrapping_add(1),
            records_flushed: self.records_flushed.wrapping_add(batch_len as u64),
            max_flush_nanos: peak(self.max_flush_nanos, nanos),
            ..self
        }
    }

    /// After `records` were appended to the log.
    pub open spec fn logged(self, records: usize) -> MetricsSnapshot {
        MetricsSnapshot {
            wal_appends: self.wal_appends.wrapping_add(1),
            wal_records: self.wal_records.wrapping_add(records as u64),
            ..self
        }
    }

    /// After a store failure.
    pub open spec fn failed(self) -> MetricsSnapshot {
        MetricsSnapshot { store_errors: self.store_errors.wrapping_add(1), ..self }
    }

    /// After a retry.
    pub open spec fn retried(self) -> MetricsSnapshot {
        MetricsSnapshot { store_retries: self.store_retries.wrapping_add(1), ..self }
    }
}

impl Default for MetricsSnapshot {
    fn default() -> (snapshot: MetricsSnapshot)
        ensures
            snapshot == MetricsSnapshot::zero(),
    {
        Metrics::new().snapshot()
    }
}

/// The greater of two gauge readings.
pub open spec fn peak(a: u64, b: u64) -> u64 {
    if b > a {
        b
    } else {
        a
    }
}

/// Raises `target` to `value` if that is greater.
fn fetch_max(target: &mut u64, value: u64)
    ensures
        *final(target) == peak(*old(target), value),
{
    if value > *target {
        *target = value;
    }
}

impl View for Metrics {
    type V = MetricsSnapshot;

    closed spec fn view(&self) -> MetricsSnapshot {
        MetricsSnapshot {
            submits_enqueued: self.submits_enqueued,
            submits_dropped: self.submits_dropped,
            max_submit_nanos: self.max_submit_nanos,
            sum_submit_nanos: self.sum_submit_nanos,
            flushes: self.flushes,
            records_flushed: self.records_flushed,
            max_flush_nanos: self.max_flush_nanos,
            wal_appends: self.wal_appends,
            wal_records: self.wal_records,
            store_errors: self.store_errors,
            store_retries: self.store_retries,
        }
    }
}

impl Metrics {
    /// Creates metrics that are all zero.
    pub fn new() -> (metrics: Metrics)
        ensures
            metrics@ == MetricsSnapshot::zero(),
    {
        Metrics {
            submits_enqueued: 0,
            submits_dropped: 0,
            max_submit_nanos: 0,
            sum_submit_nanos: 0,
            flushes: 0,
            records_flushed: 0,
            max_flush_nanos: 0,
            wal_appends: 0,
            wal_records: 0,
            store_errors: 0,
            store_retries: 0,
        }
    }

    /// Records a write that was accepted within `submit_nanos`.
    pub fn record_submit_enqueued(&mut self, submit_nanos: u64)
        ensures
            final(self)@ == old(self)@.enqueued(submit_nanos),
    {
        self.submits_enqueued = self.submits_enqueued.wrapping_add(1);
        self.sum_submit_nanos = self.sum_submit_nanos.wrapping_add(submit_nanos);
        fetch_max(&mut self.max_submit_nanos, submit_nanos);
    }

    /// Records a write that was dropped because the ring was full.
    pub fn record_submit_dropped(&mut self)
        ensures
            final(self)@ == old(self)@.dropped(),
    {
        self.submits_dropped = self.submits_dropped.wrapping_add(1);
    }

    /// Records a flush of `batch_len` records within `flush_nanos`.
    pub fn record_flush(&mut self, batch_len: usize, flush_nanos: u64)
        ensures
            final(self)@ == old(self)@.flushed(batch_len, flush_nanos),
    {
        self.flushes = self.flushes.wrapping_add(1);
        self.records_flushed = self.records_flushed.wrapping_add(batch_len as u64);
        fetch_max(&mut self.max_flush_nanos, flush_nanos);
    }

    /// Records an append of `records` frames to the log. The time it took is not
    /// kept.
    pub fn record_wal_append(&mut self, records: usize, _nanos: u64)
        ensures
            final(self)@ == old(self)@.logged(records),
    {
        self.wal_appends = self.wal_appends.wrapping_add(1);
        self.wal_records = self.wal_records.wrapping_add(records as u64);
    }

    /// Records a store failure, after retries or fatal.
    pub fn record_store_error(&mut self)
        ensures
            final(self)@ == old(self)@.failed(),
    {
        self.store_errors = self.store_errors.wrapping_add(1);
    }

    /// Records one retry against the store.
    pub fn record_store_retry(&mut self)
        ensures
            final(self)@ == old(self)@.retried(),
    {
        self.store_retries = self.store_retries.wrapping_add(1);
    }

    /// A copy of all counters and gauges.
    pub fn snapshot(&self) -> (snapshot: MetricsSnapshot)
        ensures
            snapshot == self@,
    {
        MetricsSnapshot {
            submits_enqueued: self.submits_enqueued,
            submits_dropped: self.submits_dropped,
            max_submit_nanos: self.max_submit_nanos,
            sum_submit_nanos: self.sum_submit_nanos,
            flushes: self.flushes,
            records_flushed: self.records_flushed,
            max_flush_nanos: self.max_flush_nanos,
            wal_appends: self.wal_appends,
            wal_records: self.wal_records,
            store_errors: self.store_errors,
            store_retries: self.store_retries,
        }
    }
}

impl Default for Metrics {
    fn default() -> (metrics: Metrics)
        ensures
            metrics@ == MetricsSnapshot::zero(),
    {
        Metrics::new()
    }
}

/// The metrics after accepted writes with these latencies.
pub open spec fn after_submits(m: MetricsSnapshot, nanos: Seq<u64>) -> MetricsSnapshot
    decreases nanos.len(),
{
    if nanos.len() == 0 {
        m
    } else {
        after_submits(m, nanos.drop_last()).enqueued(nanos.last())
    }
}

/// The peak gauge is the highest latency seen: at least every one of them, and
/// one of them unless it is the reading from before.
pub proof fn law_peak_is_the_highest_latency(m: MetricsSnapshot, nanos: Seq<u64>)
    ensures
        forall|i: int|
            0 <= i < nanos.len() ==> #[trigger] nanos[i] <= after_submits(
                m,
                nanos,
            ).max_submit_nanos,
        m.max_submit_nanos <= after_submits(m, nanos).max_submit_nanos,
        after_submits(m, nanos).max_submit_nanos == m.max_submit_nanos || nanos.contains(
            after_submits(m, nanos).max_submit_nanos,
        ),
    decreases nanos.len(),
{
    if nanos.len() > 0 {
        let init = nanos.drop_last();
        law_peak_is_the_highest_latency(m, init);
        assert forall|i: int| 0 <= i < nanos.len() implies #[trigger] nanos[i] <= after_submits(
            m,
            nanos,
        ).max_submit_nanos by {
            if i < init.len() {
                assert(init[i] == nanos[i]);
            }
        }
        let top = after_submits(m, nanos).max_submit_nanos;
        if top == nanos.last() {
            assert(nanos[nanos.len() - 1] == top);
        } else if init.contains(top) {
            let k = choose|k: int| 0 <= k < init.len() && init[k] == top;
            assert(nanos[k] == top);
        }
    }
}

/// One thing that is recorded.
pub enum Recorded {
    /// A write was accepted within so many nanoseconds.
    Enqueued(u64),
    /// A write was dropped.
    Dropped,
    /// So many records were flushed within so many nanoseconds.
    Flushed(usize, u64),
    /// So many records were appended to the log.
    Logged(usize),
    /// The store failed.
    Failed,
    /// The store was tried again.
    Retried,
}

/// The metrics after one thing was recorded.
pub open spec fn after_record(m: MetricsSnapshot, r: Recorded) -> MetricsSnapshot {
    match r {
        Recorded::Enqueued(nanos) => m.enqueued(nanos),
        Recorded::Dropped => m.dropped(),
        Recorded::Flushed(count, nanos) => m.flushed(count, nanos),
        Recorded::Logged(count) => m.logged(count),
        Recorded::Failed => m.failed(),
        Recorded::Retried => m.retried(),
    }
}

/// Recording one thing raises its own counters by what is recorded, modulo their 64
/// bits, raises its own peak if that is exceeded, and leaves all else as it is.
pub proof fn law_each_record_has_its_own_counters(m: MetricsSnapshot, r: Recorded)
    ensures
        ({
            let n = after_record(m, r);
            let word = 0x1_0000_0000_0000_0000int;
            &&& n.submits_enqueued == (m.submits_enqueued + if r is Enqueued {
                1int
            } else {
                0
            }) % word
            &&& n.submits_dropped == (m.submits_dropped + if r is Dropped {
                1int
            } else {
                0
            }) % word
            &&& n.sum_submit_nanos == (m.sum_submit_nanos + match r {
                Recorded::Enqueued(nanos) => nanos as int,
                _ => 0,
            }) % word
            &&& n.flushes == (m.flushes + if r is Flushed {
                1int
            } else {
                0
            }) % word
            &&& n.records_flushed == (m.records_flushed + match r {
                Recorded::Flushed(count, _) => count as int,
                _ => 0,
            }) % word
            &&& n.wal_appends == (m.wal_appends + if r is Logged {
                1int
            } else {
                0
            }) % word
            &&& n.wal_records == (m.wal_records + match r {
                Recorded::Logged(count) => count as int,
                _ => 0,
            }) % word
            &&& n.store_errors == (m.store_errors + if r is Failed {
                1int
            } else {
                0
            }) % word
            &&& n.store_retries == (m.store_retries + if r is Retried {
                1int
            } else {
                0
            }) % word
            &&& match r {
                Recorded::Enqueued(nanos) => n.max_submit_nanos >= m.max_submit_nanos
                    && n.max_submit_nanos >= nanos && (n.max_submit_nanos == m.max_submit_nanos
                    || n.max_submit_nanos == nanos),
                _ => n.max_submit_nanos == m.max_submit_nanos,
            }
            &&& match r {
                Recorded::Flushed(_, nanos) => n.max_flush_nanos >= m.max_flush_nanos
                    && n.max_flush_nanos >= nanos && (n.max_flush_nanos == m.max_flush_nanos
                    || n.max_flush_nanos == nanos),
                _ => n.max_flush_nanos == m.max_flush_nanos,
            }
        }),
{
}

/// All counters and gauges start at zero.
pub proof fn law_metrics_start_at_zero()
    ensures
        ({
            let m = MetricsSnapshot::zero();
            &&& m.submits_enqueued == 0 && m.submits_dropped == 0
            &&& m.max_submit_nanos == 0 && m.sum_submit_nanos == 0
            &&& m.flushes == 0 && m.records_flushed == 0 && m.max_flush_nanos == 0
            &&& m.wal_appends == 0 && m.wal_records == 0
            &&& m.store_errors == 0 && m.store_retries == 0
        }),
{
}

} // verus!
