use flux_throughput::api::{replay, FluxEngine, SubmitOutcome};
use flux_throughput::cache::WriteBehindCache;
use flux_throughput::config::FluxConfig;
use flux_throughput::domain::{Cache, PlayerState, WalRecord, WriteRequest};
use flux_throughput::error::{DecodeError, FluxError, StoreError};
use flux_throughput::flush::{Driver, StagedBatch, Verdict};
use flux_throughput::lsn::LsnState;
use flux_throughput::metrics::Metrics;
use flux_throughput::time::{clamp_nanos, Span};
use flux_throughput::worker::{
    absorb, drain_limit, next_states, FlushAction, FlushRun, Worker, WorkerAction,
};

fn record(lsn: u64, player_id: u64, version: u64) -> WalRecord {
    WalRecord {
        lsn,
        player_id,
        version,
        blob: vec![version as u8],
    }
}

fn state(player_id: u64, version: u64) -> PlayerState {
    PlayerState {
        player_id,
        version,
        blob: vec![version as u8],
    }
}

fn request(player_id: u64, version: u64, seq: u64) -> WriteRequest {
    WriteRequest {
        player_id,
        version,
        blob: vec![version as u8],
        seq,
    }
}

#[test]
fn default_configuration() {
    let c = FluxConfig::default();
    assert_eq!(c.ring_capacity, 1 << 16);
    assert_eq!(c.flush_max_batch, 4096);
    assert_eq!(c.flush_interval, Span::from_millis(50));
    assert_eq!(c.worker_idle_sleep, Span::from_millis(1));
    assert_eq!(c.wal_dir, std::path::PathBuf::from("./flux-wal"));
    assert!(c.wal_fsync);
    assert_eq!(c.store_retry_limit, 5);
    assert_eq!(c.store_retry_backoff, Span::from_millis(2));
    assert!(c.validate().is_ok());
    let other = c.clone().with_wal_dir(std::path::PathBuf::from("/elsewhere"));
    assert_eq!(other.wal_dir, std::path::PathBuf::from("/elsewhere"));
    assert_eq!(other.ring_capacity, c.ring_capacity);
}

#[test]
fn faulty_configurations_are_refused() {
    let zero = Span { nanos: 0 };
    let cases = [
        (
            FluxConfig {
                ring_capacity: 0,
                flush_max_batch: 0,
                ..FluxConfig::default()
            },
            "ring_capacity must be >= 1",
        ),
        (
            FluxConfig {
                flush_max_batch: 0,
                ..FluxConfig::default()
            },
            "flush_max_batch must be >= 1",
        ),
        (
            FluxConfig {
                flush_interval: zero,
                ..FluxConfig::default()
            },
            "flush_interval must be > 0",
        ),
        (
            FluxConfig {
                store_retry_limit: 0,
                ..FluxConfig::default()
            },
            "store_retry_limit must be >= 1",
        ),
    ];
    for (config, text) in cases {
        assert_eq!(config.validate().unwrap_err(), text);
        assert_eq!(FluxEngine::start(config, &[]).err().unwrap(), text);
    }
}

#[test]
fn error_texts() {
    assert_eq!(
        StoreError::Unavailable.message(),
        "store unavailable (retryable)"
    );
    assert_eq!(
        StoreError::Transient("slow".to_string()).message(),
        "transient store error (retryable): slow"
    );
    let fatal = StoreError::Fatal("schema".to_string());
    assert_eq!(
        fatal.clone().message(),
        "fatal store error (not retryable): schema"
    );
    assert!(!fatal.is_retryable());
    assert!(StoreError::Unavailable.is_retryable());
    assert!(StoreError::Transient(String::new()).is_retryable());
    assert_eq!(DecodeError::Truncated.message(), "truncated WAL frame");
    assert_eq!(DecodeError::BadCrc.message(), "WAL frame CRC mismatch");
    assert_eq!(DecodeError::BadMagic.message(), "WAL frame magic mismatch");
    assert_eq!(
        FluxError::from(fatal).message(),
        "store error: fatal store error (not retryable): schema"
    );
    assert_eq!(
        FluxError::from(std::io::Error::other("boom")).message(),
        "io error: boom"
    );
}

#[test]
fn spans() {
    assert_eq!(Span::from_millis(3).nanos, 3_000_000);
    assert_eq!(Span::from_micros(3).nanos, 3_000);
    assert!(Span::from_millis(0).is_zero());
    assert!(!Span::from_micros(1).is_zero());
    assert_eq!(clamp_nanos(Span { nanos: 7 }), 7);
    assert_eq!(clamp_nanos(Span { nanos: 1 << 64 }), u64::MAX);
}

#[test]
fn a_full_ring_drops_and_every_submission_is_counted() {
    let config = FluxConfig {
        ring_capacity: 3,
        ..FluxConfig::default()
    };
    let mut engine = FluxEngine::start(config, &[]).unwrap();
    let mut accepted = 0;
    for i in 0..10 {
        match engine.submit(i, 1, vec![]) {
            SubmitOutcome::Enqueued => accepted += 1,
            SubmitOutcome::Dropped => {}
        }
    }
    assert_eq!(accepted, 4);
    let m = engine.metrics();
    assert_eq!(m.submits_enqueued, 4);
    assert_eq!(m.submits_dropped, 6);
    assert!(m.max_submit_nanos <= m.sum_submit_nanos);
    assert_eq!(engine.pending(), 4);
    assert!(engine.cache_get(0).is_none());
    assert_eq!(engine.config().ring_capacity, 3);
}

#[test]
fn submission_times_keep_their_low_bits() {
    let mut engine = FluxEngine::start(FluxConfig::default(), &[]).unwrap();
    engine.record_submit(SubmitOutcome::Enqueued, Span { nanos: (1 << 64) + 5 });
    engine.record_submit(SubmitOutcome::Enqueued, Span { nanos: 3 });
    engine.record_submit(SubmitOutcome::Dropped, Span { nanos: 100 });
    let m = engine.metrics();
    assert_eq!(m.max_submit_nanos, 5);
    assert_eq!(m.sum_submit_nanos, 8);
    assert_eq!(m.submits_dropped, 1);
}

#[test]
fn the_clock_moves_on() {
    let mut engine = FluxEngine::start(FluxConfig::default(), &[]).unwrap();
    for i in 0..1000 {
        engine.submit(i, 1, vec![0; 64]);
    }
    assert!(engine.metrics().sum_submit_nanos > 0);
}

#[test]
fn recovered_records_are_dirty_and_numbers_go_on() {
    let recovered = [record(7, 1, 2), record(9, 1, 5), record(8, 2, 1), record(3, 1, 4)];
    let mut cache = WriteBehindCache::new();
    assert_eq!(replay(&recovered, &mut cache), 10);
    assert_eq!(cache.dirty_len(), 2);
    assert_eq!(cache.get(1), Some(state(1, 5)));
    let mut engine = FluxEngine::start(FluxConfig::default(), &recovered).unwrap();
    assert_eq!(engine.pending(), 2);
    assert_eq!(engine.cache_get(1), Some(state(1, 5)));
    assert_eq!(engine.submit_durable(3, 1, vec![]).record().lsn, 10);
    let mut empty = WriteBehindCache::new();
    assert_eq!(replay(&[], &mut empty), 1);
    assert_eq!(replay(&[record(u64::MAX, 1, 1)], &mut empty), u64::MAX);
}

#[test]
fn draining_takes_requests_into_the_cache() {
    let mut cache = WriteBehindCache::new();
    let mut lsn = LsnState::new(0);
    lsn.note_logged(4, 1, 1, None);
    let requests = [request(1, 1, 4), request(2, 1, 99), request(1, 3, 5)];
    absorb(&requests, 100, &mut lsn, &mut cache);
    assert_eq!(cache.dirty_len(), 2);
    assert_eq!(cache.get(1), Some(state(1, 3)));
    // The number stays pending until a batch that is taken from now on brings it.
    assert_eq!(lsn.checkpoint_watermark(50), Some(3));
    lsn.note_accepted(&[state(1, 1)], 99);
    assert_eq!(lsn.checkpoint_watermark(50), Some(3));
    lsn.note_accepted(&[state(1, 1)], 100);
    assert_eq!(lsn.checkpoint_watermark(50), Some(50));
}

#[test]
fn batches_are_numbered_in_a_row() {
    let mut lsn = LsnState::new(0);
    let batch = StagedBatch::stage(
        Driver::Worker,
        vec![state(5, 1), state(6, 2)],
        40,
        &mut lsn,
    );
    assert_eq!(batch.records(), &[record(40, 5, 1), record(41, 6, 2)]);
    // Until the store has them, no checkpoint reaches them.
    assert_eq!(lsn.checkpoint_watermark(41), Some(39));
    let mut metrics = Metrics::new();
    let logged = batch.appended(0, 1, &mut metrics);
    assert_eq!(logged.states(), &[state(5, 1), state(6, 2)]);
    assert_eq!(metrics.snapshot().wal_records, 2);
    // The log reported nothing, so the worker goes by its own highest number.
    let mut cache = WriteBehindCache::new();
    match logged.replied(Ok(()), 5, &mut cache, &mut lsn, &mut metrics) {
        Verdict::Persisted(done) => {
            assert_eq!(done.watermark(), Some(41));
            assert_eq!(done.checkpointed(Err(std::io::Error::other("x")), 9, &mut metrics).unwrap(), 2);
        }
        _ => panic!("the store accepted"),
    }
    assert_eq!(metrics.snapshot().records_flushed, 2);
    assert_eq!(metrics.snapshot().max_flush_nanos, 9);
}

#[test]
fn a_caller_is_told_of_a_failed_checkpoint() {
    let mut metrics = Metrics::new();
    let mut cache = WriteBehindCache::new();
    let mut lsn = LsnState::new(0);
    lsn.note_pending(3);
    let batch = StagedBatch::stage(Driver::Caller, vec![state(5, 1)], 40, &mut lsn);
    let logged = batch.appended(40, 1, &mut metrics);
    match logged.replied(Ok(()), 5, &mut cache, &mut lsn, &mut metrics) {
        Verdict::Persisted(done) => {
            assert_eq!(done.watermark(), Some(2));
            let e = done
                .checkpointed(Err(std::io::Error::other("x")), 9, &mut metrics)
                .unwrap_err();
            assert_eq!(e.message(), "io error: x");
        }
        _ => panic!("the store accepted"),
    }
    assert_eq!(metrics.snapshot().flushes, 0);
}

#[test]
fn retries_are_bounded_and_failures_go_back() {
    let mut metrics = Metrics::new();
    let mut cache = WriteBehindCache::new();
    let mut lsn = LsnState::new(0);
    let mut logged =
        StagedBatch::stage(Driver::Worker, vec![state(5, 1)], 1, &mut lsn)
            .appended(1, 1, &mut metrics);
    let mut attempts = 0;
    loop {
        attempts += 1;
        match logged.replied(
            Err(StoreError::Unavailable),
            3,
            &mut cache,
            &mut lsn,
            &mut metrics,
        ) {
            Verdict::Retry(again) => logged = again,
            Verdict::Failed(e) => {
                assert!(matches!(e, StoreError::Unavailable));
                break;
            }
            Verdict::Persisted(_) => panic!("the store refused"),
        }
    }
    assert_eq!(attempts, 3);
    assert_eq!(metrics.snapshot().store_retries, 2);
    assert_eq!(metrics.snapshot().store_errors, 1);
    assert_eq!(cache.dirty_len(), 1);
    // The record stays in the log until a later batch brings its entity.
    assert_eq!(lsn.checkpoint_watermark(1), Some(0));
}

#[test]
fn a_fatal_failure_is_not_retried() {
    let mut metrics = Metrics::new();
    let mut cache = WriteBehindCache::new();
    let mut lsn = LsnState::new(0);
    let logged =
        StagedBatch::stage(Driver::Worker, vec![state(5, 1)], 1, &mut lsn)
            .appended(1, 1, &mut metrics);
    let verdict = logged.replied(
        Err(StoreError::Fatal("bad".to_string())),
        5,
        &mut cache,
        &mut lsn,
        &mut metrics,
    );
    assert!(matches!(verdict, Verdict::Failed(StoreError::Fatal(_))));
    assert_eq!(metrics.snapshot().store_retries, 0);
    assert_eq!(cache.get(5), Some(state(5, 1)));
    assert_eq!(cache.dirty_len(), 1);
}

#[test]
fn the_worker_counts_a_failed_append_as_an_error() {
    let mut metrics = Metrics::new();
    let mut cache = WriteBehindCache::new();
    let mut lsn = LsnState::new(2);
    let batch = StagedBatch::stage(Driver::Worker, vec![state(5, 1)], 1, &mut lsn);
    let e = batch.append_failed(std::io::Error::other("full"), &mut cache, &mut metrics);
    assert!(matches!(e, FluxError::Io(_)));
    assert_eq!(metrics.snapshot().store_errors, 1);
    assert_eq!(cache.dirty_len(), 1);
    assert_eq!(lsn.checkpoint_watermark(9), Some(0));
}

#[test]
fn the_worker_flushes_by_volume_and_by_time() {
    let config = FluxConfig {
        flush_max_batch: 2,
        ..FluxConfig::default()
    };
    let early = Span::from_millis(49);
    let late = Span::from_millis(50);
    let mut worker = Worker::new();
    let mut lsn = LsnState::new(0);
    let mut cache = WriteBehindCache::new();
    let idle = WorkerAction::Sleep(Span::from_millis(1));
    assert_eq!(
        worker.drained(&config, &[], true, false, late, 0, &mut lsn, &mut cache),
        idle
    );
    let one = [request(1, 1, 0)];
    assert_eq!(
        worker.drained(&config, &one, true, false, early, 0, &mut lsn, &mut cache),
        WorkerAction::Drain
    );
    assert_eq!(
        worker.drained(&config, &[], true, false, early, 0, &mut lsn, &mut cache),
        idle
    );
    assert_eq!(
        worker.drained(&config, &[], true, false, late, 0, &mut lsn, &mut cache),
        WorkerAction::Flush
    );
    let two = [request(2, 1, 1)];
    assert_eq!(
        worker.drained(&config, &two, true, false, early, 0, &mut lsn, &mut cache),
        WorkerAction::Flush
    );
    assert_eq!(worker.flush_over(&config, 1), WorkerAction::Drain);
    assert_eq!(drain_limit(&config), 8);
    let huge = FluxConfig {
        flush_max_batch: usize::MAX,
        ..FluxConfig::default()
    };
    assert_eq!(drain_limit(&huge), usize::MAX);
}

#[test]
fn a_stopping_worker_pauses_between_stalled_passes() {
    let config = FluxConfig::default();
    let mut worker = Worker::new();
    let mut lsn = LsnState::new(0);
    let mut cache = WriteBehindCache::new();
    cache.apply(&request(1, 1, 0));
    let never = Span { nanos: 0 };
    for pass in 1..=64 {
        assert_eq!(
            worker.drained(&config, &[], true, true, never, 0, &mut lsn, &mut cache),
            WorkerAction::Flush
        );
        let expected = if pass == 64 {
            WorkerAction::Stop
        } else {
            WorkerAction::Sleep(Span::from_millis(2))
        };
        assert_eq!(worker.flush_over(&config, 1), expected);
    }
    let mut done = Worker::new();
    let mut empty = WriteBehindCache::new();
    assert_eq!(
        done.drained(&config, &[], true, true, never, 0, &mut lsn, &mut empty),
        WorkerAction::Stop
    );
    assert_eq!(
        done.drained(&config, &[], false, false, never, 0, &mut lsn, &mut empty),
        WorkerAction::Sleep(Span::from_millis(2))
    );
}

#[test]
fn a_flush_run_drains_before_each_batch() {
    let config = FluxConfig {
        flush_max_batch: 2,
        ..FluxConfig::default()
    };
    let mut lsn = LsnState::new(0);
    let mut cache = WriteBehindCache::new();
    let mut run = FlushRun::new();
    let full = [request(1, 1, 0), request(2, 1, 1)];
    assert!(matches!(
        run.drained(&config, &full, 0, &mut lsn, &mut cache),
        FlushAction::Drain
    ));
    let part = [request(3, 1, 2)];
    assert!(matches!(
        run.drained(&config, &part, 0, &mut lsn, &mut cache),
        FlushAction::Drain
    ));
    match run.drained(&config, &[], 0, &mut lsn, &mut cache) {
        FlushAction::Flush(states) => assert_eq!(states.len(), 2),
        _ => panic!("three entries are dirty"),
    }
    assert!(matches!(run.batch_done(2, 1), FlushAction::Drain));
    match run.drained(&config, &[], 0, &mut lsn, &mut cache) {
        FlushAction::Flush(states) => assert_eq!(states.len(), 1),
        _ => panic!("one entry is dirty"),
    }
    assert!(matches!(run.batch_done(1, 0), FlushAction::Done(3)));
    assert_eq!(run.total(), 3);
}

#[test]
fn a_failed_batch_ends_the_flush() {
    let config = FluxConfig {
        flush_max_batch: 2,
        ..FluxConfig::default()
    };
    let mut cache = WriteBehindCache::new();
    for id in 0..3 {
        cache.apply(&request(id, 1, id));
    }
    let failed = Err(FluxError::Store(StoreError::Unavailable));
    assert!(next_states(&config, &failed, &mut cache).is_empty());
    assert_eq!(cache.dirty_len(), 3);
    assert_eq!(next_states(&config, &Ok(0), &mut cache).len(), 2);
    assert_eq!(next_states(&config, &Ok(2), &mut cache).len(), 1);
    assert!(next_states(&config, &Ok(1), &mut cache).is_empty());
}

#[test]
fn the_engine_ends_a_flush_with_a_failed_batch() {
    let mut engine = FluxEngine::start(FluxConfig::default(), &[record(1, 1, 1)]).unwrap();
    let deps = engine.worker_side();
    let failed = Err(FluxError::Io(std::io::Error::other("full")));
    assert!(deps.batch_over(failed).is_none());
    let batch = deps.batch_over(Ok(0)).unwrap();
    assert_eq!(batch.records(), &[record(2, 1, 1)]);
    assert!(deps.batch_over(Ok(1)).is_none());
}

#[test]
fn the_last_number_can_still_be_flushed() {
    let mut engine =
        FluxEngine::start(FluxConfig::default(), &[record(u64::MAX - 1, 1, 1)]).unwrap();
    let batch = engine.worker_side().next_batch().unwrap();
    assert_eq!(batch.records(), &[record(u64::MAX, 1, 1)]);
}

#[test]
fn a_refused_batch_does_not_undo_a_write_of_the_same_version() {
    let mut metrics = Metrics::new();
    let mut cache = WriteBehindCache::new();
    let mut lsn = LsnState::new(1);
    cache.apply(&request(5, 1, 0));
    let taken = cache.take_dirty(9);
    let later = WriteRequest {
        player_id: 5,
        version: 1,
        blob: vec![0xBB],
        seq: 1,
    };
    cache.apply(&later);
    let logged = StagedBatch::stage(Driver::Caller, taken.clone(), 1, &mut lsn)
        .appended(1, 1, &mut metrics);
    let verdict = logged.replied(
        Err(StoreError::Fatal("no".to_string())),
        5,
        &mut cache,
        &mut lsn,
        &mut metrics,
    );
    assert!(matches!(verdict, Verdict::Failed(_)));
    assert_eq!(cache.get(5).unwrap().blob, vec![0xBB]);
    let staged = StagedBatch::stage(Driver::Caller, taken, 2, &mut lsn);
    staged.append_failed(std::io::Error::other("full"), &mut cache, &mut metrics);
    assert_eq!(cache.get(5).unwrap().blob, vec![0xBB]);
    assert_eq!(cache.dirty_len(), 1);
}
