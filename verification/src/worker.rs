//! The decisions of the background flush worker and of a flush driven by a
//! caller.
//!
//! The worker runs in passes. A pass drains the ring into the cache and decides
//! whether to flush: when enough entries are dirty, or when any are and the
//! flush interval has gone by. A flush takes dirty entries batch by batch (see
//! [`crate::flush`]) until none are left or a batch fails. Once stopping is
//! asked for, the worker goes on until the ring and the dirty set are empty, or
//! until too many passes in a row have brought nothing. The batches that it has
//! logged by then are replayed at the next start; requests in the ring and dirty
//! entries that no logged record holds are lost with the process.

use crate::cache::{
    law_last_write_wins, law_no_write_is_forgotten, law_writes_never_go_back,
    lemma_merged_all_concat, lemma_merged_all_ok, lemma_untouched, wins_at,
};
use crate::config::FluxConfig;
use crate::domain::{
    holds_player, request_views, requested_states, state_views, Cache, CacheView, Lsn, PlayerId,
    PlayerState, Queue, RequestView, StateView, WriteRequest,
};
use crate::error::{FluxError, StoreError};
use crate::flush::{
    last_of_block, stamped, Driver, LoggedBatch, LoggedView, PersistedBatch, StagedBatch, StagedView,
    Verdict,
};
use crate::lsn::{carried_numbers, LsnState, LsnView};
use crate::metrics::{Metrics, MetricsSnapshot};
use crate::time::Span;
use vstd::prelude::*;

verus! {

/// How many batches' worth of requests one pass drains at most.
pub const DRAIN_MULTIPLE: usize = 4;

/// How many passes in a row may bring nothing before a stopping worker gives up.
pub const SHUTDOWN_MAX_STALLED_ATTEMPTS: u32 = 64;

/// How many requests a pass of the worker drains at most.
pub open spec fn drain_max(flush_max_batch: usize) -> usize {
    if flush_max_batch * DRAIN_MULTIPLE <= usize::MAX {
        (flush_max_batch * DRAIN_MULTIPLE) as usize
    } else {
        usize::MAX
    }
}

/// How many requests a pass of the worker drains at most.
pub fn drain_limit(config: &FluxConfig) -> (max: usize)
    ensures
        max == drain_max(config.flush_max_batch),
{
    if config.flush_max_batch <= usize::MAX / DRAIN_MULTIPLE {
        config.flush_max_batch * DRAIN_MULTIPLE
    } else {
        usize::MAX
    }
}

/// Takes drained requests into the cache, from where flushes take their content
/// to the store. The numbers of durable submissions among them stay pending, since
/// the cache does not survive a kill; but from now on a batch can settle them, if
/// it is numbered `from` or higher. The next number to be handed out is `from`.
pub fn absorb<C: Cache>(
    requests: &[WriteRequest],
    from: Lsn,
    lsn: &mut LsnState,
    cache: &mut C,
)
    requires
        old(cache).wf(),
    ensures
        final(cache).wf(),
        final(cache).model() == old(cache).model().merged_all(
            requested_states(request_views(requests@)),
        ),
        final(lsn)@ == old(lsn)@.after_caching(carried_numbers(request_views(requests@)), from),
{
    let ghost states = requested_states(request_views(requests@));
    let mut i: usize = 0;
    while i < requests.len()
        invariant
            i <= requests@.len(),
            states == requested_states(request_views(requests@)),
            cache.wf(),
            cache.model() == old(cache).model().merged_all(states.take(i as int)),
        decreases requests@.len() - i,
    {
        proof {
            assert(states.take(i + 1).drop_last() =~= states.take(i as int));
            assert(states.take(i + 1).last() == requests@[i as int]@.state());
        }
        cache.apply(&requests[i]);
        i = i + 1;
    }
    assert(states.take(i as int) =~= states);
    lsn.note_cached(requests, from);
}

/// What the worker does next.
#[derive(Debug, Clone, Copy, PartialEq, Eq, Structural)]
pub enum WorkerAction {
    /// Flush batch by batch, then report that the flush is over.
    Flush,
    /// Sleep, then drain.
    Sleep(Span),
    /// Drain at once.
    Drain,
    /// End.
    Stop,
}

/// The worker between its passes.
#[derive(Debug, Clone, Copy, PartialEq, Eq, Structural)]
pub struct Worker {
    /// Whether stopping was asked for.
    stopping: bool,
    /// Passes in a row that brought nothing, since stopping was asked for.
    stalled: u32,
    /// How many requests this pass has drained.
    drained: usize,
    /// How many entries were dirty before this pass flushed.
    dirty_before: usize,
}

/// A [`Worker`] as its callers see it.
pub struct WorkerView {
    pub stopping: bool,
    pub stalled: u32,
    pub drained: usize,
    pub dirty_before: usize,
}

impl WorkerView {
    /// A running worker flushes what is dirty when there is enough of it or when
    /// it is time, parks when nothing came in, and else keeps draining.
    pub open spec fn running_action(
        drained: nat,
        dirty: nat,
        since_flush: Span,
        config: FluxConfig,
    ) -> WorkerAction {
        if dirty > 0 && (dirty >= config.flush_max_batch || since_flush.nanos
            >= config.flush_interval.nanos) {
            WorkerAction::Flush
        } else if drained == 0 {
            WorkerAction::Sleep(config.worker_idle_sleep)
        } else {
            WorkerAction::Drain
        }
    }

    /// The worker once it is stopping and has drained.
    pub open spec fn stopping_with(self, drained: usize, dirty: usize) -> WorkerView {
        WorkerView {
            stopping: true,
            stalled: if self.stopping {
                self.stalled
            } else {
                0
            },
            drained,
            dirty_before: dirty,
        }
    }

    /// Whether this pass of a stopping worker brought anything.
    pub open spec fn progressed(self, dirty_after: nat) -> bool {
        self.drained > 0 || dirty_after < self.dirty_before
    }

    /// The number of passes in a row without progress, after this one.
    pub open spec fn stalled_after(self, dirty_after: nat) -> u32 {
        if self.progressed(dirty_after) {
            0
        } else if self.stalled < u32::MAX {
            (self.stalled + 1) as u32
        } else {
            u32::MAX
        }
    }

    /// What a stopping worker does at the end of a pass.
    pub open spec fn settled(self, dirty_after: nat, config: FluxConfig) -> WorkerAction {
        if self.progressed(dirty_after) {
            WorkerAction::Drain
        } else if self.stalled_after(dirty_after) >= SHUTDOWN_MAX_STALLED_ATTEMPTS {
            WorkerAction::Stop
        } else if config.store_retry_backoff.nanos == 0 {
            WorkerAction::Drain
        } else {
            WorkerAction::Sleep(config.store_retry_backoff)
        }
    }
}

impl View for Worker {
    type V = WorkerView;

    closed spec fn view(&self) -> WorkerView {
        WorkerView {
            stopping: self.stopping,
            stalled: self.stalled,
            drained: self.drained,
            dirty_before: self.dirty_before,
        }
    }
}

impl Worker {
    /// A worker before its first pass.
    pub fn new() -> (worker: Worker)
        ensures
            worker@ == (WorkerView { stopping: false, stalled: 0, drained: 0, dirty_before: 0 }),
    {
        Worker { stopping: false, stalled: 0, drained: 0, dirty_before: 0 }
    }

    /// The ring was drained at the start of a pass, after the stop flag was
    /// read: takes the requests into the cache and decides what to do. The next
    /// number to be handed out is `from`.
    pub fn drained<C: Cache>(
        &mut self,
        config: &FluxConfig,
        requests: &[WriteRequest],
        ring_empty: bool,
        stop: bool,
        since_flush: Span,
        from: Lsn,
        lsn: &mut LsnState,
        cache: &mut C,
    ) -> (action: WorkerAction)
        requires
            old(cache).wf(),
        ensures
            final(cache).wf(),
            final(cache).model() == old(cache).model().merged_all(
                requested_states(request_views(requests@)),
            ),
            final(lsn)@ == old(lsn)@.after_caching(
                carried_numbers(request_views(requests@)),
                from,
            ),
            ({
                let dirty = final(cache).model().dirty.len();
                let here = old(self)@.stopping_with(requests@.len() as usize, dirty as usize);
                if !stop && !old(self)@.stopping {
                    &&& final(self)@ == old(self)@
                    &&& action == WorkerView::running_action(
                        requests@.len(),
                        dirty,
                        since_flush,
                        *config,
                    )
                } else if ring_empty && dirty == 0 {
                    &&& final(self)@ == here
                    &&& action == WorkerAction::Stop
                } else if dirty > 0 {
                    &&& final(self)@ == here
                    &&& action == WorkerAction::Flush
                } else {
                    &&& final(self)@ == (WorkerView { stalled: here.stalled_after(0), ..here })
                    &&& action == here.settled(0, *config)
                }
            }),
            !stop && !old(self)@.stopping ==> {
                let dirty = final(cache).model().dirty.len();
                &&& action is Flush <==> dirty > 0 && (dirty >= config.flush_max_batch
                    || since_flush.nanos >= config.flush_interval.nanos)
                &&& !(action is Stop)
                &&& action is Sleep <==> requests@.len() == 0 && !(action is Flush)
                &&& action matches WorkerAction::Sleep(span) ==> span == config.worker_idle_sleep
                &&& !final(self)@.stopping
            },
            stop || old(self)@.stopping ==> {
                let dirty = final(cache).model().dirty.len();
                &&& final(self)@.stopping
                &&& final(self)@.drained == requests@.len()
                &&& final(self)@.dirty_before == dirty
                &&& action is Flush <==> dirty > 0
                &&& dirty == 0 ==> (action is Stop <==> ring_empty || (requests@.len() == 0
                    && old(self)@.stopping && old(self)@.stalled >= 63))
            },
    {
        absorb(requests, from, lsn, cache);
        let dirty: usize = cache.dirty_len();
        let drained: usize = requests.len();
        if !stop && !self.stopping {
            let volume_ready = dirty >= config.flush_max_batch;
            let time_ready = since_flush.nanos >= config.flush_interval.nanos;
            if dirty > 0 && (volume_ready || time_ready) {
                return WorkerAction::Flush;
            }
            if drained == 0 {
                return WorkerAction::Sleep(config.worker_idle_sleep);
            }
            return WorkerAction::Drain;
        }
        if !self.stopping {
            self.stopping = true;
            self.stalled = 0;
        }
        self.drained = drained;
        self.dirty_before = dirty;
        if ring_empty && dirty == 0 {
            WorkerAction::Stop
        } else if dirty > 0 {
            WorkerAction::Flush
        } else {
            self.settle(config, dirty)
        }
    }

    /// A flush is over, with `dirty_after` entries dirty: decides what to do.
    pub fn flush_over(&mut self, config: &FluxConfig, dirty_after: usize) -> (action: WorkerAction)
        ensures
            if old(self)@.stopping {
                &&& final(self)@ == (WorkerView {
                    stalled: old(self)@.stalled_after(dirty_after as nat),
                    ..old(self)@
                })
                &&& action == old(self)@.settled(dirty_after as nat, *config)
            } else {
                &&& final(self)@ == old(self)@
                &&& action == WorkerAction::Drain
            },
            old(self)@.drained > 0 || dirty_after < old(self)@.dirty_before ==> action
                == WorkerAction::Drain,
            old(self)@.stopping && old(self)@.drained == 0 && dirty_after
                >= old(self)@.dirty_before ==> {
                &&& action is Stop <==> old(self)@.stalled >= 63
                &&& action matches WorkerAction::Sleep(span) ==> span == config.store_retry_backoff
                &&& action is Sleep <==> old(self)@.stalled < 63
                    && config.store_retry_backoff.nanos > 0
            },
    {
        if self.stopping {
            self.settle(config, dirty_after)
        } else {
            WorkerAction::Drain
        }
    }

    /// The end of a pass of a stopping worker.
    fn settle(&mut self, config: &FluxConfig, dirty_after: usize) -> (action: WorkerAction)
        ensures
            final(self)@ == (WorkerView {
                stalled: old(self)@.stalled_after(dirty_after as nat),
                ..old(self)@
            }),
            action == old(self)@.settled(dirty_after as nat, *config),
    {
        if self.drained > 0 || dirty_after < self.dirty_before {
            self.stalled = 0;
            WorkerAction::Drain
        } else {
            self.stalled = self.stalled.saturating_add(1);
            if self.stalled >= SHUTDOWN_MAX_STALLED_ATTEMPTS {
                WorkerAction::Stop
            } else if config.store_retry_backoff.is_zero() {
                WorkerAction::Drain
            } else {
                WorkerAction::Sleep(config.store_retry_backoff)
            }
        }
    }
}

/// The states of the worker's next batch, after one that ended with `last`: none
/// if that failed, and else up to a batch of dirty entries.
pub fn next_states<C: Cache>(
    config: &FluxConfig,
    last: &Result<usize, FluxError>,
    cache: &mut C,
) -> (states: Vec<PlayerState>)
    requires
        old(cache).wf(),
    ensures
        final(cache).wf(),
        match last {
            Ok(_) => {
                &&& old(cache).model().taken(state_views(states@), final(cache).model())
                &&& states@.len() == batch_size(
                    old(cache).model().dirty.len(),
                    config.flush_max_batch,
                )
            },
            Err(_) => states@.len() == 0 && final(cache).model() == old(cache).model(),
        },
{
    match last {
        Ok(_) => cache.take_dirty(config.flush_max_batch),
        Err(_) => Vec::new(),
    }
}

/// What a flush driven by a caller does next.
#[derive(Debug)]
pub enum FlushAction {
    /// Drain a batch of requests from the ring.
    Drain,
    /// Put these states through the log into the store.
    Flush(Vec<PlayerState>),
    /// Report that so many states were persisted.
    Done(usize),
}

/// A flush driven by a caller: it drains the ring, then flushes until nothing
/// is dirty, draining again before each batch.
#[derive(Debug, Clone, Copy, PartialEq, Eq, Structural)]
pub struct FlushRun {
    /// Whether the ring was drained for the first time.
    started: bool,
    /// How many states were persisted.
    total: usize,
}

/// A [`FlushRun`] as its callers see it.
pub struct FlushRunView {
    pub started: bool,
    pub total: usize,
}

impl View for FlushRun {
    type V = FlushRunView;

    closed spec fn view(&self) -> FlushRunView {
        FlushRunView { started: self.started, total: self.total }
    }
}

impl FlushRun {
    /// A flush before its first drain.
    pub fn new() -> (run: FlushRun)
        ensures
            run@ == (FlushRunView { started: false, total: 0 }),
    {
        FlushRun { started: false, total: 0 }
    }

    /// How many states were persisted so far.
    pub fn total(&self) -> (n: usize)
        ensures
            n == self@.total,
    {
        self.total
    }

    /// A batch of requests, at most `flush_max_batch`, was drained: takes them
    /// into the cache and decides what to do. A full batch means that the ring
    /// may hold more. The next number to be handed out is `from`; states to be
    /// flushed are to be numbered before anything else comes into the cache.
    pub fn drained<C: Cache>(
        &mut self,
        config: &FluxConfig,
        requests: &[WriteRequest],
        from: Lsn,
        lsn: &mut LsnState,
        cache: &mut C,
    ) -> (action: FlushAction)
        requires
            old(cache).wf(),
        ensures
            final(cache).wf(),
            final(lsn)@ == old(lsn)@.after_caching(
                carried_numbers(request_views(requests@)),
                from,
            ),
            ({
                let filled = old(cache).model().merged_all(
                    requested_states(request_views(requests@)),
                );
                if requests@.len() > 0 && requests@.len() >= config.flush_max_batch {
                    &&& final(self)@ == old(self)@
                    &&& final(cache).model() == filled
                    &&& action is Drain
                } else if !old(self)@.started {
                    &&& final(self)@ == (FlushRunView { started: true, ..old(self)@ })
                    &&& final(cache).model() == filled
                    &&& if filled.dirty.len() > 0 {
                        action is Drain
                    } else {
                        action == FlushAction::Done(old(self)@.total)
                    }
                } else if filled.dirty.len() > 0 && config.flush_max_batch > 0 {
                    &&& final(self)@ == old(self)@
                    &&& action matches FlushAction::Flush(states)
                    &&& filled.taken(state_views(states@), final(cache).model())
                    &&& states@.len() == batch_size(filled.dirty.len(), config.flush_max_batch)
                } else {
                    &&& final(self)@ == old(self)@
                    &&& filled.taken(Seq::empty(), final(cache).model())
                    &&& action == FlushAction::Done(old(self)@.total)
                }
            }),
    {
        absorb(requests, from, lsn, cache);
        if requests.len() > 0 && requests.len() >= config.flush_max_batch {
            return FlushAction::Drain;
        }
        if !self.started {
            self.started = true;
            return if cache.dirty_len() > 0 {
                FlushAction::Drain
            } else {
                FlushAction::Done(self.total)
            };
        }
        let states = cache.take_dirty(config.flush_max_batch);
        if states.len() == 0 {
            assert(state_views(states@) =~= Seq::empty());
            FlushAction::Done(self.total)
        } else {
            FlushAction::Flush(states)
        }
    }

    /// A batch of `persisted` states went through, and `dirty_after` entries are
    /// dirty: decides what to do.
    pub fn batch_done(&mut self, persisted: usize, dirty_after: usize) -> (action: FlushAction)
        requires
            old(self)@.total + persisted <= usize::MAX,
        ensures
            final(self)@ == (FlushRunView {
                total: (old(self)@.total + persisted) as usize,
                ..old(self)@
            }),
            if dirty_after > 0 {
                action is Drain
            } else {
                action == FlushAction::Done((old(self)@.total + persisted) as usize)
            },
    {
        self.total = self.total + persisted;
        if dirty_after > 0 {
            FlushAction::Drain
        } else {
            FlushAction::Done(self.total)
        }
    }
}

/// The parts of the pipeline that the flush worker shares with the engine. The
/// log and the store are not among them: what is to be done with them is handed
/// out step by step, and what came of it is reported back.
pub struct WorkerDeps<Q: Queue, C: Cache> {
    /// Tuning knobs.
    pub config: FluxConfig,
    /// The ring that incoming writes are drained from.
    pub ring: Q,
    /// The coalescing cache that is flushed to the store.
    pub cache: C,
    /// Counters of drains and flushes.
    pub metrics: Metrics,
    /// The authority for log sequence numbers.
    pub lsn: LsnState,
    /// Whether the worker is asked to stop.
    pub stop: bool,
}

/// [`WorkerDeps`] as its callers see it.
#[verifier::ext_equal]
pub struct DepsView {
    pub config: FluxConfig,
    pub queued: Seq<RequestView>,
    pub limit: nat,
    pub cache: CacheView,
    pub metrics: MetricsSnapshot,
    pub lsn: LsnView,
    pub stop: bool,
}

impl<Q: Queue, C: Cache> View for WorkerDeps<Q, C> {
    type V = DepsView;

    open spec fn view(&self) -> DepsView {
        DepsView {
            config: self.config,
            queued: self.ring.items(),
            limit: self.ring.limit(),
            cache: self.cache.model(),
            metrics: self.metrics@,
            lsn: self.lsn@,
            stop: self.stop,
        }
    }
}

/// What a flush driven by a caller does next, outside the pipeline's own parts.
#[derive(Debug)]
pub enum FlushStep {
    /// Put this batch through the log into the store.
    Batch(StagedBatch),
    /// Report that so many states were persisted.
    Done(usize),
}

/// The cache after all of `queued` was taken in.
pub open spec fn filled(cache: CacheView, queued: Seq<RequestView>) -> CacheView {
    cache.merged_all(requested_states(queued))
}

/// How many of `dirty` entries a batch of at most `max` takes.
pub open spec fn batch_size(dirty: nat, max: usize) -> nat {
    if dirty < max {
        dirty
    } else {
        max as nat
    }
}

/// Whether a step of a flush driven by a caller may turn `a` into `b`: the whole
/// ring is drained into the cache, and a batch is taken if anything is dirty.
pub open spec fn flush_stepped(
    a: DepsView,
    run_a: FlushRunView,
    step: FlushStep,
    b: DepsView,
    run_b: FlushRunView,
) -> bool {
    let full = filled(a.cache, a.queued);
    let lsn = a.lsn.after_caching(carried_numbers(a.queued), a.lsn.next);
    let n = batch_size(full.dirty.len(), a.config.flush_max_batch);
    &&& run_b == (FlushRunView { started: true, ..run_a })
    &&& b == (DepsView { queued: Seq::empty(), cache: b.cache, lsn: b.lsn, ..a })
    &&& match step {
        FlushStep::Batch(batch) => {
            &&& n > 0
            &&& batch@.driver == Driver::Caller
            &&& batch@.states.len() == n
            &&& batch@.first_lsn == a.lsn.next
            &&& full.taken(batch@.states, b.cache)
            &&& b.lsn == lsn.advanced(n as u64).noted_all(
                stamped(batch@.states, batch@.first_lsn),
                batch@.first_lsn,
            )
        },
        FlushStep::Done(total) => {
            &&& n == 0
            &&& total == run_a.total
            &&& b.cache == full
            &&& b.lsn == lsn
        },
    }
}

impl<Q: Queue, C: Cache> WorkerDeps<Q, C> {
    pub open spec fn wf(&self) -> bool {
        self.ring.wf() && self.cache.wf()
    }

    /// Whether the sequence numbers last for a batch of so many dirty entries.
    pub open spec fn has_numbers(&self, dirty: nat) -> bool {
        self.lsn@.next + batch_size(dirty, self.config.flush_max_batch) <= u64::MAX + 1
    }

    /// One pass of the worker: drains the ring, as far as a pass goes, takes the
    /// requests into the cache and decides what to do.
    pub fn pass(&mut self, worker: &mut Worker, since_flush: Span) -> (action: WorkerAction)
        requires
            old(self).wf(),
        ensures
            final(self).wf(),
            ({
                let n = batch_size(
                    old(self)@.queued.len(),
                    drain_max(old(self)@.config.flush_max_batch),
                ) as int;
                let requests = old(self)@.queued.take(n);
                let dirty = final(self)@.cache.dirty.len();
                let here = old(worker)@.stopping_with(n as usize, dirty as usize);
                &&& final(self)@.queued == old(self)@.queued.skip(n)
                &&& final(self)@.cache == filled(old(self)@.cache, requests)
                &&& final(self)@ == (DepsView {
                    queued: final(self)@.queued,
                    cache: final(self)@.cache,
                    lsn: old(self)@.lsn.after_caching(
                        carried_numbers(requests),
                        old(self)@.lsn.next,
                    ),
                    ..old(self)@
                })
                &&& if !old(self)@.stop && !old(worker)@.stopping {
                    &&& final(worker)@ == old(worker)@
                    &&& action == WorkerView::running_action(
                        n as nat,
                        dirty,
                        since_flush,
                        old(self)@.config,
                    )
                } else if final(self)@.queued.len() == 0 && dirty == 0 {
                    &&& final(worker)@ == here
                    &&& action == WorkerAction::Stop
                } else if dirty > 0 {
                    &&& final(worker)@ == here
                    &&& action == WorkerAction::Flush
                } else {
                    &&& final(worker)@ == (WorkerView { stalled: here.stalled_after(0), ..here })
                    &&& action == here.settled(0, old(self)@.config)
                }
            }),
    {
        let mut scratch: Vec<WriteRequest> = Vec::new();
        let max: usize = drain_limit(&self.config);
        let moved: usize = self.ring.drain_into(&mut scratch, max);
        proof {
            assert(request_views(scratch@) =~= old(self)@.queued.take(moved as int));
            assert(scratch@.len() == request_views(scratch@).len());
        }
        let ring_empty = self.ring.is_empty();
        let from: Lsn = self.lsn.next_number();
        worker.drained(
            &self.config,
            scratch.as_slice(),
            ring_empty,
            self.stop,
            since_flush,
            from,
            &mut self.lsn,
            &mut self.cache,
        )
    }

    /// The next batch of the worker's flush: `None` once nothing is dirty.
    pub fn next_batch(&mut self) -> (batch: Option<StagedBatch>)
        requires
            old(self).wf(),
            old(self).has_numbers(old(self)@.cache.dirty.len()),
        ensures
            final(self).wf(),
            match batch {
                Some(batch) => {
                    let n = batch_size(
                        old(self)@.cache.dirty.len(),
                        old(self)@.config.flush_max_batch,
                    );
                    &&& n > 0
                    &&& batch@.driver == Driver::Worker
                    &&& batch@.states.len() == n
                    &&& batch@.first_lsn == old(self)@.lsn.next
                    &&& old(self)@.cache.taken(batch@.states, final(self)@.cache)
                    &&& final(self)@ == (DepsView {
                        cache: final(self)@.cache,
                        lsn: old(self)@.lsn.advanced(n as u64).noted_all(
                            stamped(batch@.states, batch@.first_lsn),
                            batch@.first_lsn,
                        ),
                        ..old(self)@
                    })
                },
                None => {
                    &&& old(self)@.cache.dirty.len() == 0 || old(self)@.config.flush_max_batch == 0
                    &&& final(self)@ == old(self)@
                },
            },
    {
        self.batch_over(Ok(0))
    }

    /// A batch of the worker's flush is over: the next one, unless it failed. A
    /// flush ends with the first batch that fails, whose states are back in the
    /// cache by then.
    pub fn batch_over(&mut self, result: Result<usize, FluxError>) -> (next: Option<StagedBatch>)
        requires
            old(self).wf(),
            old(self).has_numbers(old(self)@.cache.dirty.len()),
        ensures
            final(self).wf(),
            result is Err ==> next is None && final(self)@ == old(self)@,
            result is Ok ==> match next {
                Some(batch) => {
                    let n = batch_size(
                        old(self)@.cache.dirty.len(),
                        old(self)@.config.flush_max_batch,
                    );
                    &&& n > 0
                    &&& batch@.driver == Driver::Worker
                    &&& batch@.states.len() == n
                    &&& batch@.first_lsn == old(self)@.lsn.next
                    &&& old(self)@.cache.taken(batch@.states, final(self)@.cache)
                    &&& final(self)@ == (DepsView {
                        cache: final(self)@.cache,
                        lsn: old(self)@.lsn.advanced(n as u64).noted_all(
                            stamped(batch@.states, batch@.first_lsn),
                            batch@.first_lsn,
                        ),
                        ..old(self)@
                    })
                },
                None => {
                    &&& old(self)@.cache.dirty.len() == 0 || old(self)@.config.flush_max_batch == 0
                    &&& final(self)@ == old(self)@
                },
            },
    {
        let states = next_states(&self.config, &result, &mut self.cache);
        if states.len() == 0 {
            proof {
                if result is Ok {
                    lemma_nothing_taken(old(self)@.cache, state_views(states@), self@.cache);
                }
            }
            return None;
        }
        Some(self.stage(Driver::Worker, states))
    }

    /// Numbers a batch that was taken from the cache.
    fn stage(&mut self, driver: Driver, states: Vec<PlayerState>) -> (batch: StagedBatch)
        requires
            old(self).wf(),
            states@.len() > 0,
            old(self)@.lsn.next + states@.len() <= u64::MAX + 1,
        ensures
            final(self).wf(),
            batch@ == (StagedView {
                driver,
                states: state_views(states@),
                first_lsn: old(self)@.lsn.next,
            }),
            final(self)@ == (DepsView {
                lsn: old(self)@.lsn.advanced(states@.len() as u64).noted_all(
                    stamped(state_views(states@), old(self)@.lsn.next),
                    old(self)@.lsn.next,
                ),
                ..old(self)@
            }),
    {
        let count: u64 = states.len() as u64;
        let first_lsn: Lsn = self.lsn.alloc_block(count);
        StagedBatch::stage(driver, states, first_lsn, &mut self.lsn)
    }

    /// The log could not take a batch.
    pub fn append_failed(&mut self, batch: StagedBatch, error: std::io::Error) -> (reported:
        FluxError)
        requires
            old(self).wf(),
        ensures
            final(self).wf(),
            reported == FluxError::Io(error),
            final(self)@ == (DepsView {
                cache: old(self)@.cache.given_back_all(batch@.states),
                metrics: match batch@.driver {
                    Driver::Worker => old(self)@.metrics.failed(),
                    Driver::Caller => old(self)@.metrics,
                },
                ..old(self)@
            }),
    {
        batch.append_failed(error, &mut self.cache, &mut self.metrics)
    }

    /// A batch is in the log, which reports `confirmed` as its highest number.
    pub fn appended(&mut self, batch: StagedBatch, confirmed: Lsn, nanos: u64) -> (logged:
        LoggedBatch)
        requires
            old(self).wf(),
        ensures
            final(self).wf(),
            logged@ == (LoggedView {
                driver: batch@.driver,
                states: batch@.states,
                first_lsn: batch@.first_lsn,
                checkpoint_lsn: if batch@.driver == Driver::Worker && confirmed == 0 {
                    last_of_block(batch@.first_lsn, batch@.states.len())
                } else {
                    confirmed
                },
                failures: 0,
            }),
            final(self)@ == (DepsView {
                metrics: old(self)@.metrics.logged(batch@.states.len() as usize),
                ..old(self)@
            }),
    {
        batch.appended(confirmed, nanos, &mut self.metrics)
    }

    /// The store has replied to an attempt at a batch.
    pub fn replied(&mut self, batch: LoggedBatch, reply: Result<(), StoreError>) -> (verdict:
        Verdict)
        requires
            old(self).wf(),
        ensures
            final(self).wf(),
            match reply {
                Ok(()) => {
                    &&& verdict matches Verdict::Persisted(done)
                    &&& done@.driver == batch@.driver
                    &&& done@.count == batch@.states.len()
                    &&& final(self)@ == (DepsView {
                        lsn: old(self)@.lsn.after_accept(batch@.states, batch@.first_lsn),
                        ..old(self)@
                    })
                    &&& final(self)@.lsn.watermark(batch@.checkpoint_lsn, done@.watermark)
                },
                Err(e) => if batch@.worth_retry(e@, old(self)@.config.store_retry_limit) {
                    &&& verdict matches Verdict::Retry(again)
                    &&& again@ == batch@.after_failure()
                    &&& final(self)@ == (DepsView {
                        metrics: old(self)@.metrics.retried(),
                        ..old(self)@
                    })
                } else {
                    &&& verdict == Verdict::Failed(e)
                    &&& final(self)@ == (DepsView {
                        cache: old(self)@.cache.given_back_all(batch@.states),
                        metrics: old(self)@.metrics.failed(),
                        ..old(self)@
                    })
                },
            },
    {
        batch.replied(
            reply,
            self.config.store_retry_limit,
            &mut self.cache,
            &mut self.lsn,
            &mut self.metrics,
        )
    }

    /// A batch is in the store and the log was checkpointed, or not, or that
    /// failed.
    pub fn checkpointed(
        &mut self,
        batch: PersistedBatch,
        result: Result<(), std::io::Error>,
        nanos: u64,
    ) -> (persisted: Result<usize, FluxError>)
        requires
            old(self).wf(),
        ensures
            final(self).wf(),
            match (batch@.driver, result) {
                (Driver::Caller, Err(e)) => persisted == Err::<usize, _>(FluxError::Io(e))
                    && final(self)@ == old(self)@,
                _ => persisted == Ok::<_, FluxError>(batch@.count) && final(self)@ == (DepsView {
                    metrics: old(self)@.metrics.flushed(batch@.count, nanos),
                    ..old(self)@
                }),
            },
    {
        batch.checkpointed(result, nanos, &mut self.metrics)
    }

    /// The next step of a flush driven by a caller: drains the whole ring into
    /// the cache and takes a batch, if anything is dirty.
    pub fn flush_step(&mut self, run: &mut FlushRun) -> (step: FlushStep)
        requires
            old(self).wf(),
            old(self).has_numbers(filled(old(self)@.cache, old(self)@.queued).dirty.len()),
            old(self)@.config.flush_max_batch > 0,
        ensures
            final(self).wf(),
            flush_stepped(old(self)@, old(run)@, step, final(self)@, final(run)@),
    {
        let max: usize = self.config.flush_max_batch;
        let ghost queued = self@.queued;
        let ghost mut n: int = 0;
        proof {
            assert(queued.skip(0) =~= queued);
            assert(requested_states(queued.take(0)) =~= Seq::empty());
            lemma_nothing_cached(self@.lsn, queued.take(0));
        }
        loop
            invariant
                self.wf(),
                max == self.config.flush_max_batch,
                max > 0,
                queued == old(self)@.queued,
                0 <= n <= queued.len(),
                self@.queued == queued.skip(n),
                self@.cache == filled(old(self)@.cache, queued.take(n)),
                self@.lsn == old(self)@.lsn.after_caching(
                    carried_numbers(queued.take(n)),
                    old(self)@.lsn.next,
                ),
                self@ == (DepsView {
                    queued: self@.queued,
                    cache: self@.cache,
                    lsn: self@.lsn,
                    ..old(self)@
                }),
                run@.total == old(run)@.total,
                old(self).has_numbers(filled(old(self)@.cache, queued).dirty.len()),
            decreases queued.len() - n + if run@.started { 0int } else { 1int },
        {
            let mut scratch: Vec<WriteRequest> = Vec::new();
            let moved: usize = self.ring.drain_into(&mut scratch, max);
            let ghost got = request_views(scratch@);
            proof {
                assert(got =~= queued.skip(n).take(moved as int));
                assert(queued.take(n + moved) =~= queued.take(n) + got);
                assert(queued.skip(n).skip(moved as int) =~= queued.skip(n + moved));
                assert(requested_states(queued.take(n + moved)) =~= requested_states(
                    queued.take(n),
                ) + requested_states(got));
                lemma_merged_all_concat(
                    old(self)@.cache,
                    requested_states(queued.take(n)),
                    requested_states(got),
                );
                lemma_cached_twice(old(self)@.lsn, queued.take(n), got);
                n = n + moved;
            }
            let from: Lsn = self.lsn.next_number();
            let action = run.drained(
                &self.config,
                scratch.as_slice(),
                from,
                &mut self.lsn,
                &mut self.cache,
            );
            match action {
                FlushAction::Drain => {},
                FlushAction::Flush(states) => {
                    assert(queued.take(n) =~= queued);
                    assert(self@.queued =~= Seq::empty());
                    let batch = self.stage(Driver::Caller, states);
                    return FlushStep::Batch(batch);
                },
                FlushAction::Done(total) => {
                    proof {
                        assert(queued.take(n) =~= queued);
                        assert(self@.queued =~= Seq::empty());
                        let full = filled(old(self)@.cache, queued);
                        if self@.cache != full {
                            lemma_nothing_taken(full, Seq::empty(), self@.cache);
                        }
                    }
                    return FlushStep::Done(total);
                },
            }
        }
    }
}

/// Nothing in the cache means nothing new to settle.
proof fn lemma_nothing_cached(lsn: LsnView, none: Seq<RequestView>)
    requires
        none.len() == 0,
    ensures
        lsn.after_caching(carried_numbers(none), lsn.next) == lsn,
{
    assert(lsn.after_caching(carried_numbers(none), lsn.next).pending =~= lsn.pending);
}

/// Requests that come into the cache in two goes.
proof fn lemma_cached_twice(lsn: LsnView, first: Seq<RequestView>, second: Seq<RequestView>)
    ensures
        lsn.after_caching(carried_numbers(first), lsn.next).after_caching(
            carried_numbers(second),
            lsn.next,
        ) == lsn.after_caching(carried_numbers(first + second), lsn.next),
{
    let all = first + second;
    assert forall|number: Lsn| carried_numbers(all).contains(number) <==> carried_numbers(
        first,
    ).contains(number) || carried_numbers(second).contains(number) by {
        if carried_numbers(first).contains(number) {
            let i = choose|i: int| 0 <= i < first.len() && (#[trigger] first[i]).seq == number;
            assert(all[i].seq == number);
        }
        if carried_numbers(second).contains(number) {
            let i = choose|i: int| 0 <= i < second.len() && (#[trigger] second[i]).seq == number;
            assert(all[first.len() + i].seq == number);
        }
        if carried_numbers(all).contains(number) {
            let i = choose|i: int| 0 <= i < all.len() && (#[trigger] all[i]).seq == number;
            if i < first.len() {
                assert(first[i].seq == number);
            } else {
                assert(second[i - first.len()].seq == number);
            }
        }
    }
    let once = lsn.after_caching(carried_numbers(first), lsn.next);
    assert(once.after_caching(carried_numbers(second), lsn.next).pending =~= lsn.after_caching(
        carried_numbers(all),
        lsn.next,
    ).pending);
}

/// Taking no states changes nothing.
proof fn lemma_nothing_taken(before: CacheView, states: Seq<StateView>, after: CacheView)
    requires
        states.len() == 0,
        before.taken(states, after),
    ensures
        after == before,
{
    assert(after.dirty =~= before.dirty) by {
        assert forall|id: PlayerId| !holds_player(states, id) by {}
    }
}

/// Whether one batch of a flush driven by a caller may turn `a` into `b`: it is
/// taken, goes through the log into the store, and is counted. Meanwhile numbers
/// and metrics move on, and requests may come into the ring.
pub open spec fn flush_leg(
    a: DepsView,
    run_a: FlushRunView,
    batch: StagedBatch,
    b: DepsView,
    run_b: FlushRunView,
) -> bool {
    exists|mid: DepsView, run_mid: FlushRunView|
        {
            &&& #[trigger] flush_stepped(a, run_a, FlushStep::Batch(batch), mid, run_mid)
            &&& b == (DepsView { lsn: b.lsn, metrics: b.metrics, queued: b.queued, ..mid })
            &&& run_mid.total + batch@.states.len() <= usize::MAX
            &&& run_b == (FlushRunView {
                total: (run_mid.total + batch@.states.len()) as usize,
                ..run_mid
            })
        }
}

/// Whether a flush driven by a caller goes through these states of the pipeline
/// and of the flush, with one of these batches between each and the next, and
/// ends in `end` with `total` reported: because nothing is dirty behind a batch,
/// or because a step finds nothing to take.
pub open spec fn flush_run(
    deps: Seq<DepsView>,
    runs: Seq<FlushRunView>,
    batches: Seq<StagedBatch>,
    end: DepsView,
    total: usize,
) -> bool {
    &&& deps.len() == batches.len() + 1
    &&& runs.len() == batches.len() + 1
    &&& runs[0] == (FlushRunView { started: false, total: 0 })
    &&& forall|k: int|
        0 <= k < batches.len() ==> flush_leg(
            deps[k],
            runs[k],
            #[trigger] batches[k],
            deps[k + 1],
            runs[k + 1],
        )
    &&& {
        ||| batches.len() > 0 && deps.last().cache.dirty.len() == 0 && end == deps.last() && total
            == runs.last().total
        ||| exists|run_end: FlushRunView| #[trigger]
            flush_stepped(deps.last(), runs.last(), FlushStep::Done(total), end, run_end)
    }
}

/// The states of all batches, in order.
pub open spec fn all_states(batches: Seq<StagedBatch>) -> Seq<StateView>
    decreases batches.len(),
{
    if batches.len() == 0 {
        Seq::empty()
    } else {
        all_states(batches.drop_last()) + batches.last()@.states
    }
}

/// Taking some states and then others is taking all of them.
proof fn lemma_taken_twice(
    v: CacheView,
    first: Seq<StateView>,
    mid: CacheView,
    second: Seq<StateView>,
    after: CacheView,
)
    requires
        v.taken(first, mid),
        mid.taken(second, after),
    ensures
        v.taken(first + second, after),
{
    let all = first + second;
    assert forall|i: int| 0 <= i < all.len() implies v.dirty.contains(
        (#[trigger] all[i]).player_id,
    ) && all[i] == v.entries[all[i].player_id] by {
        if i >= first.len() {
            assert(all[i] == second[i - first.len()]);
            assert(mid.dirty.contains(all[i].player_id));
        }
    }
    assert forall|i: int, j: int| 0 <= i < j < all.len() implies (#[trigger] all[i]).player_id != (
    #[trigger] all[j]).player_id by {
        if i >= first.len() {
            assert(all[i] == second[i - first.len()]);
            assert(all[j] == second[j - first.len()]);
        } else if j >= first.len() {
            assert(all[j] == second[j - first.len()]);
            assert(mid.dirty.contains(all[j].player_id));
            assert(first[i] == all[i]);
        } else {
            assert(first[i] == all[i] && first[j] == all[j]);
        }
    }
    assert forall|id: PlayerId| #[trigger] after.dirty.contains(id) <==> v.dirty.contains(id)
        && !holds_player(all, id) by {
        if holds_player(first, id) {
            let i = choose|i: int| 0 <= i < first.len() && (#[trigger] first[i]).player_id == id;
            assert(all[i].player_id == id);
        }
        if holds_player(second, id) {
            let i = choose|i: int| 0 <= i < second.len() && (#[trigger] second[i]).player_id == id;
            assert(all[first.len() + i].player_id == id);
        }
        if holds_player(all, id) {
            let i = choose|i: int| 0 <= i < all.len() && (#[trigger] all[i]).player_id == id;
            if i < first.len() {
                assert(first[i].player_id == id);
            } else {
                assert(second[i - first.len()].player_id == id);
            }
        }
        assert(mid.dirty.contains(id) <==> v.dirty.contains(id) && !holds_player(first, id));
    }
}

/// Every state that is taken is one dirty entry less.
proof fn lemma_taken_counts(v: CacheView, states: Seq<StateView>, after: CacheView)
    requires
        v.dirty.finite(),
        v.taken(states, after),
    ensures
        after.dirty.finite(),
        after.dirty.len() + states.len() == v.dirty.len(),
    decreases states.len(),
{
    if states.len() == 0 {
        lemma_nothing_taken(v, states, after);
    } else {
        let init = states.drop_last();
        let last = states[states.len() - 1];
        let mid = CacheView { dirty: after.dirty.insert(last.player_id), ..after };
        assert(holds_player(states, last.player_id));
        assert(!after.dirty.contains(last.player_id));
        assert forall|id: PlayerId| #[trigger] mid.dirty.contains(id) <==> v.dirty.contains(id)
            && !holds_player(init, id) by {
            assert(after.dirty.contains(id) <==> v.dirty.contains(id) && !holds_player(states, id));
            assert(v.dirty.contains(last.player_id));
            if holds_player(init, id) {
                let i = choose|i: int| 0 <= i < init.len() && (#[trigger] init[i]).player_id == id;
                assert(states[i].player_id == id);
            }
            if holds_player(states, id) {
                let i = choose|i: int|
                    0 <= i < states.len() && (#[trigger] states[i]).player_id == id;
                if i < init.len() {
                    assert(init[i].player_id == id);
                }
            }
        }
        assert forall|i: int| 0 <= i < init.len() implies v.dirty.contains(
            (#[trigger] init[i]).player_id,
        ) && init[i] == v.entries[init[i].player_id] by {
            assert(init[i] == states[i]);
        }
        lemma_taken_counts(v, init, mid);
        assert(after.dirty =~= mid.dirty.remove(last.player_id));
    }
}

proof fn lemma_nothing_arrived(cache: CacheView, queued: Seq<RequestView>)
    requires
        queued.len() == 0,
    ensures
        filled(cache, queued) == cache,
{
}

proof fn lemma_flush_so_far(
    deps: Seq<DepsView>,
    runs: Seq<FlushRunView>,
    batches: Seq<StagedBatch>,
    end: DepsView,
    total: usize,
    k: int,
)
    requires
        flush_run(deps, runs, batches, end, total),
        0 <= k <= batches.len(),
    ensures
        runs[k].total == all_states(batches.take(k)).len(),
        (forall|i: int| 1 <= i <= k ==> (#[trigger] deps[i]).queued.len() == 0) ==> filled(
            deps[0].cache,
            deps[0].queued,
        ).taken(all_states(batches.take(k)), filled(deps[k].cache, deps[k].queued)),
    decreases k,
{
    if k == 0 {
        assert(batches.take(0) =~= Seq::empty());
    } else {
        lemma_flush_so_far(deps, runs, batches, end, total, k - 1);
        assert(batches.take(k).drop_last() =~= batches.take(k - 1));
        let batch = batches[k - 1];
        assert(flush_leg(deps[k - 1], runs[k - 1], batch, deps[k - 1 + 1], runs[k - 1 + 1]));
        if forall|i: int| 1 <= i <= k ==> (#[trigger] deps[i]).queued.len() == 0 {
            assert(deps[k].queued.len() == 0);
            lemma_nothing_arrived(deps[k].cache, deps[k].queued);
            lemma_taken_twice(
                filled(deps[0].cache, deps[0].queued),
                all_states(batches.take(k - 1)),
                filled(deps[k - 1].cache, deps[k - 1].queued),
                batch@.states,
                deps[k].cache,
            );
        }
    }
}

/// A flush that a caller waits for and that ends without an error leaves nothing
/// dirty, and reports how many states went through its batches.
pub proof fn law_flush_reports_what_it_persisted(
    deps: Seq<DepsView>,
    runs: Seq<FlushRunView>,
    batches: Seq<StagedBatch>,
    end: DepsView,
    total: usize,
)
    requires
        flush_run(deps, runs, batches, end, total),
        deps[0].config.flush_max_batch > 0,
    ensures
        total == all_states(batches).len(),
        end.cache.dirty.len() == 0,
{
    let n = batches.len() as int;
    lemma_flush_so_far(deps, runs, batches, end, total, n);
    lemma_config_stays(deps, runs, batches, end, total, n);
    assert(batches.take(n) =~= batches);
}

proof fn lemma_config_stays(
    deps: Seq<DepsView>,
    runs: Seq<FlushRunView>,
    batches: Seq<StagedBatch>,
    end: DepsView,
    total: usize,
    k: int,
)
    requires
        flush_run(deps, runs, batches, end, total),
        0 <= k <= batches.len(),
    ensures
        deps[k].config == deps[0].config,
    decreases k,
{
    if k > 0 {
        lemma_config_stays(deps, runs, batches, end, total, k - 1);
        assert(flush_leg(
            deps[k - 1],
            runs[k - 1],
            batches[k - 1],
            deps[k - 1 + 1],
            runs[k - 1 + 1],
        ));
    }
}

/// A flush that a caller waits for, that ends without an error and during which
/// nothing is submitted, persists each entity once of all that are dirty or
/// queued when it begins, in the state that the cache then holds, and reports
/// their number.
pub proof fn law_flush_persists_each_dirty_entry_once(
    deps: Seq<DepsView>,
    runs: Seq<FlushRunView>,
    batches: Seq<StagedBatch>,
    end: DepsView,
    total: usize,
)
    requires
        flush_run(deps, runs, batches, end, total),
        deps[0].config.flush_max_batch > 0,
        deps[0].cache.ok(),
        forall|i: int| 1 <= i <= batches.len() ==> (#[trigger] deps[i]).queued.len() == 0,
    ensures
        ({
            let full = filled(deps[0].cache, deps[0].queued);
            let states = all_states(batches);
            &&& total == full.dirty.len()
            &&& states.len() == total
            &&& forall|id: PlayerId| #[trigger]
                full.dirty.contains(id) <==> holds_player(states, id)
            &&& forall|i: int, j: int|
                0 <= i < j < states.len() ==> (#[trigger] states[i]).player_id != (
                #[trigger] states[j]).player_id
            &&& forall|i: int|
                0 <= i < states.len() ==> #[trigger] states[i]
                    == full.entries[states[i].player_id]
            &&& end.cache == (CacheView { dirty: Set::empty(), ..full })
        }),
{
    let n = batches.len() as int;
    let full = filled(deps[0].cache, deps[0].queued);
    let states = all_states(batches);
    lemma_merged_all_ok(deps[0].cache, requested_states(deps[0].queued));
    law_flush_reports_what_it_persisted(deps, runs, batches, end, total);
    lemma_flush_so_far(deps, runs, batches, end, total, n);
    assert(batches.take(n) =~= batches);
    if n > 0 {
        assert(deps[n].queued.len() == 0);
        lemma_nothing_arrived(deps[n].cache, deps[n].queued);
    }
    lemma_taken_counts(full, states, filled(deps[n].cache, deps[n].queued));
    assert(end.cache.dirty =~= Set::empty());
    assert forall|id: PlayerId| #[trigger] full.dirty.contains(id) <==> holds_player(states, id) by {
        assert(end.cache.dirty.contains(id) <==> full.dirty.contains(id) && !holds_player(
            states,
            id,
        ));
    }
}

/// A stopping worker after a pass that drained nothing, with `before` entries
/// dirty before its flush and `after` behind it.
pub open spec fn after_idle_pass(w: WorkerView, before: usize, after: nat) -> WorkerView {
    let here = w.stopping_with(0, before);
    WorkerView { stalled: here.stalled_after(after), ..here }
}

/// A stopping worker after several such passes.
pub open spec fn after_idle_passes(w: WorkerView, passes: Seq<(usize, nat)>) -> WorkerView
    decreases passes.len(),
{
    if passes.len() == 0 {
        w
    } else {
        after_idle_pass(
            after_idle_passes(w, passes.drop_last()),
            passes.last().0,
            passes.last().1,
        )
    }
}

/// Stopping never hangs on a store that is down for good: of passes in a row
/// that drain nothing and persist nothing, the 64th ends the worker, and none
/// before it does.
pub proof fn law_stalled_shutdown_is_bounded(
    w: WorkerView,
    passes: Seq<(usize, nat)>,
    before: usize,
    after: nat,
    config: FluxConfig,
)
    requires
        w.stopping ==> w.stalled == 0,
        passes.len() < SHUTDOWN_MAX_STALLED_ATTEMPTS,
        forall|i: int| 0 <= i < passes.len() ==> (#[trigger] passes[i]).1 >= passes[i].0,
        after >= before,
    ensures
        after_idle_passes(w, passes).stopping_with(0, before).settled(after, config) is Stop
            <==> passes.len() == SHUTDOWN_MAX_STALLED_ATTEMPTS - 1,
{
    lemma_idle_passes(w, passes);
}

proof fn lemma_idle_passes(w: WorkerView, passes: Seq<(usize, nat)>)
    requires
        w.stopping ==> w.stalled == 0,
        passes.len() < SHUTDOWN_MAX_STALLED_ATTEMPTS,
        forall|i: int| 0 <= i < passes.len() ==> (#[trigger] passes[i]).1 >= passes[i].0,
    ensures
        passes.len() > 0 ==> after_idle_passes(w, passes).stopping && after_idle_passes(
            w,
            passes,
        ).stalled == passes.len(),
    decreases passes.len(),
{
    if passes.len() > 0 {
        let init = passes.drop_last();
        assert forall|i: int| 0 <= i < init.len() implies (#[trigger] init[i]).1
            >= init[i].0 by {
            assert(init[i] == passes[i]);
        }
        lemma_idle_passes(w, init);
        let mid = after_idle_passes(w, init);
        let last = passes[passes.len() - 1];
        assert(last.1 >= last.0);
        assert(mid.stopping_with(0, last.0).stalled == init.len());
        assert(after_idle_passes(w, passes) == after_idle_pass(mid, last.0, last.1));
    }
}

/// A running worker flushes in every pass that ends its drain with something dirty
/// once the flush interval has gone by, or once a batch is full, however many
/// requests the pass drained; it flushes in no other pass, it parks only in a pass
/// that drained nothing, and it never ends.
pub proof fn law_running_worker_flushes_in_time(
    drained: nat,
    dirty: nat,
    since_flush: Span,
    config: FluxConfig,
)
    ensures
        ({
            let action = WorkerView::running_action(drained, dirty, since_flush, config);
            &&& dirty >= 1 && since_flush.nanos >= config.flush_interval.nanos ==> action is Flush
            &&& dirty >= 1 && dirty >= config.flush_max_batch ==> action is Flush
            &&& action is Flush ==> dirty >= 1 && (since_flush.nanos
                >= config.flush_interval.nanos || dirty >= config.flush_max_batch)
            &&& drained > 0 && !(action is Flush) ==> action is Drain
            &&& drained == 0 && !(action is Flush) ==> action == WorkerAction::Sleep(
                config.worker_idle_sleep,
            )
        }),
{
}

/// Whether a worker flushes does not depend on what the pass drained, and a longer
/// wait or more dirty entries never keep it from flushing.
pub proof fn law_flushing_is_monotone(
    drained: nat,
    dirty: nat,
    since_flush: Span,
    more_drained: nat,
    more_dirty: nat,
    longer: Span,
    config: FluxConfig,
)
    requires
        WorkerView::running_action(drained, dirty, since_flush, config) is Flush,
        more_dirty >= dirty,
        longer.nanos >= since_flush.nanos,
    ensures
        WorkerView::running_action(more_drained, more_dirty, longer, config) is Flush,
{
}

/// A pass of a stopping worker.
pub struct StopPass {
    /// Whether the ring was empty after it was drained.
    pub ring_empty: bool,
    /// How many requests were drained.
    pub drained: usize,
    /// How many entries were dirty then.
    pub dirty: usize,
    /// How many entries are dirty once the flush is over.
    pub dirty_after: nat,
}

impl StopPass {
    /// Whether the pass drained nothing and persisted nothing.
    pub open spec fn brought_nothing(self) -> bool {
        self.drained == 0 && self.dirty_after >= self.dirty
    }

    /// Whether the pass found nothing left to do.
    pub open spec fn found_nothing_left(self) -> bool {
        self.ring_empty && self.dirty == 0
    }
}

/// Whether a pass takes a stopping worker from `a` to `b`, and ends with `action`.
pub open spec fn stop_pass(
    a: WorkerView,
    pass: StopPass,
    config: FluxConfig,
    b: WorkerView,
    action: WorkerAction,
) -> bool {
    let here = a.stopping_with(pass.drained, pass.dirty);
    &&& pass.dirty == 0 ==> pass.dirty_after == 0
    &&& if pass.found_nothing_left() {
        b == here && action == WorkerAction::Stop
    } else {
        b == (WorkerView { stalled: here.stalled_after(pass.dirty_after), ..here }) && action
            == here.settled(pass.dirty_after, config)
    }
}

/// Whether a worker that is asked to stop goes through these passes.
pub open spec fn stop_run(
    workers: Seq<WorkerView>,
    passes: Seq<StopPass>,
    actions: Seq<WorkerAction>,
    config: FluxConfig,
) -> bool {
    &&& workers.len() == passes.len() + 1
    &&& actions.len() == passes.len()
    &&& !workers[0].stopping
    &&& forall|k: int|
        0 <= k < passes.len() ==> stop_pass(
            workers[k],
            #[trigger] passes[k],
            config,
            workers[k + 1],
            actions[k],
        )
}

/// How many passes in a row, up to the `k`-th, brought nothing.
spec fn idle_before(passes: Seq<StopPass>, k: int) -> int
    decreases k,
{
    if k <= 0 || !passes[k - 1].brought_nothing() {
        0
    } else {
        idle_before(passes, k - 1) + 1
    }
}

proof fn lemma_idle_before(passes: Seq<StopPass>, k: int, n: int)
    requires
        0 <= k <= passes.len(),
        0 <= n <= k,
    ensures
        0 <= idle_before(passes, k) <= k,
        idle_before(passes, k) >= n <==> forall|i: int|
            k - n <= i < k ==> (#[trigger] passes[i]).brought_nothing(),
    decreases k,
{
    if k > 0 {
        if n > 0 {
            lemma_idle_before(passes, k - 1, n - 1);
            if forall|i: int| k - n <= i < k ==> (#[trigger] passes[i]).brought_nothing() {
                assert(passes[k - 1].brought_nothing());
                assert forall|i: int| k - n <= i < k - 1 implies (
                #[trigger] passes[i]).brought_nothing() by {}
            }
            if idle_before(passes, k) >= n {
                assert forall|i: int| k - n <= i < k implies (
                #[trigger] passes[i]).brought_nothing() by {
                    if i < k - 1 {
                        assert(k - 1 - (n - 1) <= i);
                    }
                }
            }
        } else {
            lemma_idle_before(passes, k - 1, 0);
        }
    }
}

proof fn lemma_stalled_counts(
    workers: Seq<WorkerView>,
    passes: Seq<StopPass>,
    actions: Seq<WorkerAction>,
    config: FluxConfig,
    k: int,
)
    requires
        stop_run(workers, passes, actions, config),
        0 <= k <= passes.len(),
        forall|i: int| 0 <= i < k ==> !(#[trigger] actions[i] is Stop),
    ensures
        k > 0 ==> workers[k].stopping && workers[k].stalled == idle_before(passes, k),
        0 <= idle_before(passes, k) < 64,
    decreases k,
{
    if k > 0 {
        lemma_stalled_counts(workers, passes, actions, config, k - 1);
        assert(stop_pass(
            workers[k - 1],
            passes[k - 1],
            config,
            workers[k - 1 + 1],
            actions[k - 1],
        ));
        assert(!(actions[k - 1] is Stop));
    }
}

/// A stopping worker ends in a pass that found the ring empty and nothing dirty, or
/// in the last of 64 passes in a row that drained nothing and persisted nothing, and
/// in no other. So a pass that drained a request, or made the dirty set smaller, is
/// never its last, and no write is left behind while the store takes anything.
pub proof fn law_stopping_worker_ends_only_when_done_or_stuck(
    workers: Seq<WorkerView>,
    passes: Seq<StopPass>,
    actions: Seq<WorkerAction>,
    config: FluxConfig,
    k: int,
)
    requires
        stop_run(workers, passes, actions, config),
        0 <= k < passes.len(),
        forall|i: int| 0 <= i < k ==> !(#[trigger] actions[i] is Stop),
    ensures
        actions[k] is Stop <==> (passes[k].ring_empty && passes[k].dirty == 0) || (k >= 63
            && forall|i: int|
            k - 63 <= i <= k ==> (#[trigger] passes[i]).drained == 0 && passes[i].dirty_after
                >= passes[i].dirty),
        passes[k].drained > 0 && !passes[k].ring_empty ==> actions[k] is Drain,
        passes[k].dirty_after < passes[k].dirty ==> actions[k] is Drain,
        passes[k].drained == 0 && passes[k].dirty_after >= passes[k].dirty && !(actions[k] is Stop)
            ==> actions[k] == if config.store_retry_backoff.nanos == 0 {
            WorkerAction::Drain
        } else {
            WorkerAction::Sleep(config.store_retry_backoff)
        },
{
    lemma_stalled_counts(workers, passes, actions, config, k);
    assert(stop_pass(workers[k], passes[k], config, workers[k + 1], actions[k]));
    if k >= 63 {
        lemma_idle_before(passes, k + 1, 64);
        assert((forall|i: int|
            k - 63 <= i <= k ==> (#[trigger] passes[i]).drained == 0 && passes[i].dirty_after
                >= passes[i].dirty) <==> (forall|i: int|
            k + 1 - 64 <= i < k + 1 ==> (#[trigger] passes[i]).brought_nothing())) by {
            if forall|i: int|
                k - 63 <= i <= k ==> (#[trigger] passes[i]).drained == 0 && passes[i].dirty_after
                    >= passes[i].dirty {
                assert forall|i: int| k + 1 - 64 <= i < k + 1 implies (
                #[trigger] passes[i]).brought_nothing() by {}
            }
            if forall|i: int|
                k + 1 - 64 <= i < k + 1 ==> (#[trigger] passes[i]).brought_nothing() {
                assert forall|i: int| k - 63 <= i <= k implies (#[trigger] passes[i]).drained == 0
                    && passes[i].dirty_after >= passes[i].dirty by {
                    assert(passes[i].brought_nothing());
                }
            }
        }
    } else {
        lemma_idle_before(passes, k, 0);
    }
}

/// A batch takes as many dirty entries as there are, up to its limit.
pub proof fn law_batches_are_as_large_as_they_can_be(dirty: nat, max: usize)
    ensures
        batch_size(dirty, max) <= dirty,
        batch_size(dirty, max) <= max,
        batch_size(dirty, max) == dirty || batch_size(dirty, max) == max,
{
}

/// A pass drains four batches' worth of requests, as far as that can be counted.
pub proof fn law_a_pass_drains_four_batches(max: usize)
    ensures
        4 * max <= usize::MAX ==> drain_max(max) == 4 * max,
        4 * max > usize::MAX ==> drain_max(max) == usize::MAX,
{
}

/// Every queued write arrives: once the ring is drained, the cache holds its entity in
/// its version or a newer one, and what it holds is a state that was queued for the
/// entity, or the one that it held before.
pub proof fn law_every_queued_write_reaches_the_cache(
    cache: CacheView,
    queued: Seq<RequestView>,
    i: int,
)
    requires
        cache.ok(),
        0 <= i < queued.len(),
    ensures
        ({
            let after = filled(cache, queued);
            let id = queued[i].player_id;
            &&& after.entries.dom().contains(id)
            &&& after.entries[id].version >= queued[i].version
            &&& {
                ||| cache.entries.dom().contains(id) && after.entries[id] == cache.entries[id]
                ||| exists|k: int|
                    0 <= k < queued.len() && (#[trigger] queued[k]).player_id == id
                        && queued[k].version == after.entries[id].version && queued[k].blob
                        == after.entries[id].blob && after.dirty.contains(id)
            }
        }),
{
    let states = requested_states(queued);
    let id = queued[i].player_id;
    assert(states[i].player_id == id);
    assert(holds_player(states, id));
    law_no_write_is_forgotten(cache, states, i);
    law_last_write_wins(cache, states, id);
    let held = filled(cache, queued).entries[id];
    if !(cache.entries.dom().contains(id) && held == cache.entries[id]) {
        let k = choose|k: int| #[trigger] wins_at(states, id, k) && states[k] == held;
        assert(queued[k].player_id == id);
        law_no_write_is_forgotten(cache, states, k);
        if cache.entries.dom().contains(id) {
            law_writes_never_go_back(cache, states, id);
        }
    }
}

/// A step of a flush that a caller waits for empties the ring; it takes as many dirty
/// entries as make a batch, numbers them from the next number on, and leaves the others
/// dirty; it ends the flush exactly if nothing is dirty.
pub proof fn law_flush_step_takes_a_whole_batch(
    a: DepsView,
    run_a: FlushRunView,
    step: FlushStep,
    b: DepsView,
    run_b: FlushRunView,
)
    requires
        flush_stepped(a, run_a, step, b, run_b),
        a.config.flush_max_batch > 0,
        a.cache.ok(),
    ensures
        b.queued.len() == 0,
        run_b.total == run_a.total,
        ({
            let dirty = filled(a.cache, a.queued).dirty.len();
            match step {
                FlushStep::Done(total) => {
                    &&& dirty == 0
                    &&& b.cache.dirty.len() == 0
                    &&& total == run_a.total
                    &&& b.lsn.next == a.lsn.next
                },
                FlushStep::Batch(batch) => {
                    let n = batch@.states.len();
                    &&& 0 < n <= a.config.flush_max_batch
                    &&& n == dirty || n == a.config.flush_max_batch
                    &&& b.cache.dirty.len() == dirty - n
                    &&& b.cache.entries == filled(a.cache, a.queued).entries
                    &&& batch@.first_lsn == a.lsn.next
                    &&& batch@.driver is Caller
                    &&& a.lsn.next + n <= u64::MAX ==> b.lsn.next == a.lsn.next + n
                },
            }
        }),
{
    lemma_merged_all_ok(a.cache, requested_states(a.queued));
    if let FlushStep::Batch(batch) = step {
        lemma_taken_counts(filled(a.cache, a.queued), batch@.states, b.cache);
    }
}

/// Draining the ring leaves every entity alone for which nothing is queued.
pub proof fn law_draining_leaves_other_entities_alone(
    cache: CacheView,
    queued: Seq<RequestView>,
    id: PlayerId,
)
    requires
        forall|i: int| 0 <= i < queued.len() ==> (#[trigger] queued[i]).player_id != id,
    ensures
        ({
            let after = filled(cache, queued);
            &&& after.entries.dom().contains(id) == cache.entries.dom().contains(id)
            &&& cache.entries.dom().contains(id) ==> after.entries[id] == cache.entries[id]
            &&& after.dirty.contains(id) == cache.dirty.contains(id)
        }),
{
    let states = requested_states(queued);
    if holds_player(states, id) {
        let i = choose|i: int| 0 <= i < states.len() && (#[trigger] states[i]).player_id == id;
        assert(queued[i].player_id == id);
    }
    lemma_untouched(cache, states, id);
}

} // verus!
