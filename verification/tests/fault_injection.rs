use flux_throughput::api::{FluxEngine, SubmitOutcome};
use flux_throughput::config::FluxConfig;
use flux_throughput::disk::FileStep;
use flux_throughput::domain::{
    Lsn, PersistenceStore, PlayerId, PlayerState, WalRecord, WriteAheadLog,
};
use flux_throughput::error::FluxError;
use flux_throughput::flush::{StagedBatch, Verdict};
use flux_throughput::store::MockDb;
use flux_throughput::time::Span;
use flux_throughput::wal::{ForeignSegment, Plan, Wal};
use flux_throughput::worker::{FlushAction, FlushRun, FlushStep, Worker, WorkerAction};
use std::collections::HashMap;

/// The files of a log, in memory.
#[derive(Clone, Default)]
struct Files {
    active: Vec<u8>,
    temp: Vec<u8>,
    cursor: usize,
}

impl Files {
    fn perform(&mut self, steps: Vec<FileStep>) {
        for step in steps {
            match step {
                FileStep::WriteFront(bytes) => {
                    if self.active.len() < bytes.len() {
                        self.active.resize(bytes.len(), 0);
                    }
                    self.active[..bytes.len()].copy_from_slice(&bytes);
                }
                FileStep::Append(bytes) => {
                    self.active.truncate(self.cursor);
                    self.active.extend_from_slice(&bytes);
                    self.cursor = self.active.len();
                }
                FileStep::WriteTemp(bytes) => self.temp = bytes,
                FileStep::RenameTemp => self.active = std::mem::take(&mut self.temp),
                FileStep::Truncate(len) => self.active.truncate(len as usize),
                FileStep::ReopenAt(at) => self.cursor = at as usize,
                FileStep::Drain
                | FileStep::SyncActive
                | FileStep::SyncTemp
                | FileStep::SyncDirectory => {}
            }
        }
    }
}

/// A log on files in memory.
struct MemLog {
    files: Files,
    wal: Wal,
}

impl MemLog {
    fn open(mut files: Files, fsync: bool) -> Result<MemLog, ForeignSegment> {
        let len = files.active.len() as u64;
        let plan = Wal::open(len, &files.active, fsync)?;
        files.perform(plan.steps);
        Ok(MemLog {
            files,
            wal: plan.next,
        })
    }

    fn run(&mut self, plan: Plan) {
        self.files.perform(plan.steps);
        self.wal = plan.next;
    }
}

impl WriteAheadLog for MemLog {
    fn append_batch(&mut self, records: &[WalRecord]) -> std::io::Result<Lsn> {
        let plan = self.wal.append_batch(records);
        self.run(plan);
        Ok(self.wal.last_lsn())
    }

    fn checkpoint(&mut self, up_to_lsn: Lsn) -> std::io::Result<()> {
        let plan = self.wal.checkpoint(&self.files.active, up_to_lsn);
        self.run(plan);
        Ok(())
    }

    fn recover(&mut self) -> std::io::Result<Vec<WalRecord>> {
        let (records, plan) = self.wal.recover(&self.files.active);
        self.run(plan);
        Ok(records)
    }

    fn flush(&mut self) -> std::io::Result<()> {
        let steps = self.wal.flush();
        self.files.perform(steps);
        Ok(())
    }
}

/// An engine with its log and its store, driven by one thread.
struct Pipeline {
    engine: FluxEngine,
    log: MemLog,
    store: MockDb,
    worker: Worker,
}

impl Pipeline {
    fn start(files: Files, store: MockDb) -> Pipeline {
        let mut log = MemLog::open(files, true).unwrap();
        let recovered = log.recover().unwrap();
        let engine = FluxEngine::start(test_config(), &recovered).unwrap();
        Pipeline {
            engine,
            log,
            store,
            worker: Worker::new(),
        }
    }

    fn put_through(&mut self, batch: StagedBatch) -> Result<usize, FluxError> {
        let deps = self.engine.worker_side();
        let confirmed = match self.log.append_batch(batch.records()) {
            Ok(lsn) => lsn,
            Err(e) => return Err(deps.append_failed(batch, e)),
        };
        let mut logged = deps.appended(batch, confirmed, 1);
        loop {
            let reply = self.store.persist_batch(logged.states());
            match deps.replied(logged, reply) {
                Verdict::Persisted(done) => {
                    let result = match done.watermark() {
                        Some(up_to) => self.log.checkpoint(up_to),
                        None => Ok(()),
                    };
                    return deps.checkpointed(done, result, 1);
                }
                Verdict::Retry(again) => logged = again,
                Verdict::Failed(e) => return Err(FluxError::Store(e)),
            }
        }
    }

    fn flush_now(&mut self) -> Result<usize, FluxError> {
        let mut run = FlushRun::new();
        loop {
            match self.engine.flush_now(&mut run) {
                FlushStep::Done(total) => return Ok(total),
                FlushStep::Batch(batch) => {
                    let persisted = self.put_through(batch)?;
                    let dirty = self.engine.pending();
                    if let FlushAction::Done(total) = run.batch_done(persisted, dirty) {
                        return Ok(total);
                    }
                }
            }
        }
    }

    /// One pass of the worker. Returns whether it goes on.
    fn pass(&mut self) -> bool {
        let interval = self.engine.config().flush_interval;
        let action = self
            .engine
            .worker_side()
            .pass(&mut self.worker, interval);
        let action = match action {
            WorkerAction::Flush => {
                let mut last = Ok(0);
                while let Some(batch) = self.engine.worker_side().batch_over(last) {
                    last = self.put_through(batch);
                }
                let dirty = self.engine.pending();
                let config = self.engine.config().clone();
                self.worker.flush_over(&config, dirty)
            }
            other => other,
        };
        action != WorkerAction::Stop
    }

    fn shutdown(&mut self) -> usize {
        self.engine.shutdown();
        let mut passes = 1;
        while self.pass() {
            passes += 1;
        }
        self.log.flush().unwrap();
        passes
    }
}

fn test_config() -> FluxConfig {
    FluxConfig {
        ring_capacity: 1024,
        flush_max_batch: 64,
        flush_interval: Span::from_millis(5),
        worker_idle_sleep: Span::from_millis(1),
        wal_fsync: true,
        store_retry_limit: 5,
        store_retry_backoff: Span::from_millis(1),
        ..FluxConfig::default()
    }
}

fn encode_blob(player_id: PlayerId, version: u64) -> Vec<u8> {
    format!("p{player_id}v{version}").into_bytes()
}

type Submit = (PlayerId, u64, Vec<u8>);

fn known_updates(players: u64, versions: u64) -> (Vec<Submit>, HashMap<PlayerId, PlayerState>) {
    let mut submits = Vec::new();
    let mut expected = HashMap::new();
    for pid in 0..players {
        for ver in 1..=versions {
            let blob = encode_blob(pid, ver);
            submits.push((pid, ver, blob.clone()));
            if ver == versions {
                expected.insert(
                    pid,
                    PlayerState {
                        player_id: pid,
                        version: ver,
                        blob,
                    },
                );
            }
        }
    }
    (submits, expected)
}

fn submit_all(p: &mut Pipeline, submits: &[Submit]) {
    for (pid, ver, blob) in submits {
        while p.engine.submit(*pid, *ver, blob.clone()) == SubmitOutcome::Dropped {
            p.pass();
        }
    }
}

fn assert_store_exact(store: &MockDb, expected: &HashMap<PlayerId, PlayerState>) {
    let snap = store.snapshot();
    assert_eq!(snap.len(), expected.len());
    for st in &snap {
        assert_eq!(Some(st), expected.get(&st.player_id));
    }
    for (pid, want) in expected {
        assert_eq!(store.load(*pid).as_ref(), Some(want));
    }
}

#[test]
fn transient_recovery_no_lost_updates() {
    let mut store = MockDb::new();
    store.fail_next_batches(12);
    let mut p = Pipeline::start(Files::default(), store);
    let (submits, expected) = known_updates(40, 3);
    submit_all(&mut p, &submits);
    for _ in 0..50 {
        let _ = p.flush_now();
        if p.engine.pending() == 0 && p.store.count() as u64 == 40 {
            break;
        }
    }
    p.shutdown();
    assert_store_exact(&p.store, &expected);
}

#[test]
fn transient_recovery_metrics_prove_retries() {
    let mut store = MockDb::new();
    store.fail_next_batches(12);
    let mut p = Pipeline::start(Files::default(), store);
    let (submits, expected) = known_updates(30, 4);
    submit_all(&mut p, &submits);
    for _ in 0..50 {
        let _ = p.flush_now();
        if p.engine.pending() == 0 && p.store.count() as u64 == 30 {
            break;
        }
    }
    let m = p.engine.metrics();
    assert_eq!(p.store.count() as u64, 30, "all 30 players must be persisted");
    assert_store_exact(&p.store, &expected);
    assert!(m.store_retries > 0);
    assert!(m.store_errors > 0);
    // Two flushes use up five attempts each, the third succeeds at its third.
    assert_eq!(m.store_errors, 2);
    assert_eq!(m.store_retries, 10);
    p.shutdown();
}

#[test]
fn db_down_then_up_buffers_then_persists() {
    let mut store = MockDb::new();
    store.set_healthy(false);
    let mut p = Pipeline::start(Files::default(), store);
    let (submits, expected) = known_updates(25, 2);
    submit_all(&mut p, &submits);
    for _ in 0..8 {
        p.pass();
    }
    assert_eq!(p.store.count(), 0);
    assert_eq!(p.store.persisted_batches(), 0);
    for pid in 0..25u64 {
        let cached = p.engine.cache_get(pid).unwrap();
        assert_eq!(cached.version, 2);
        assert_eq!(cached.blob, encode_blob(pid, 2));
    }
    assert!(p.engine.pending() >= 25);

    p.store.set_healthy(true);
    assert_eq!(p.flush_now().unwrap(), 25);
    assert_eq!(
        p.store.count() as u64,
        25,
        "all 25 players must persist after recovery"
    );
    assert_store_exact(&p.store, &expected);
    assert_eq!(
        p.engine.pending(),
        0,
        "no pending writes should remain after recovery flush"
    );
    p.shutdown();
    assert_store_exact(&p.store, &expected);
}

#[test]
fn periodic_failures_final_state_exact() {
    let mut store = MockDb::new();
    store.set_fail_every(3);
    let mut p = Pipeline::start(Files::default(), store);
    let players = 150u64;
    let versions = 8u64;
    let (submits, expected) = known_updates(players, versions);
    submit_all(&mut p, &submits);
    for _ in 0..50 {
        let _ = p.flush_now();
        if p.engine.pending() == 0 && p.store.count() as u64 == players {
            break;
        }
    }
    let m = p.engine.metrics();
    p.shutdown();
    assert_eq!(
        p.store.count() as u64,
        players,
        "every player must be persisted exactly once"
    );
    assert_store_exact(&p.store, &expected);
    assert!(m.store_retries > 0);
}

#[test]
fn requeue_never_regresses_to_stale_version() {
    let mut store = MockDb::new();
    store.set_healthy(false);
    let mut p = Pipeline::start(Files::default(), store);
    for ver in 1..=10u64 {
        assert_eq!(
            p.engine.submit(7, ver, encode_blob(7, ver)),
            SubmitOutcome::Enqueued
        );
        p.pass();
    }
    assert_eq!(p.store.count(), 0, "store must be empty while down");
    assert_eq!(p.engine.cache_get(7).unwrap().version, 10);
    p.store.set_healthy(true);
    assert_eq!(p.flush_now().unwrap(), 1);
    assert_eq!(
        p.store.load(7),
        Some(PlayerState {
            player_id: 7,
            version: 10,
            blob: encode_blob(7, 10),
        })
    );
    p.shutdown();
}

#[test]
fn stopping_drains_and_flushes_everything() {
    let mut p = Pipeline::start(Files::default(), MockDb::new());
    let (submits, expected) = known_updates(200, 3);
    submit_all(&mut p, &submits);
    p.shutdown();
    assert_store_exact(&p.store, &expected);
    assert_eq!(p.engine.pending(), 0);
    assert!(p.log.recover().unwrap().is_empty());
}

#[test]
fn stopping_gives_up_on_a_store_that_stays_down() {
    let mut store = MockDb::new();
    store.set_healthy(false);
    let mut p = Pipeline::start(Files::default(), store);
    for id in 0..3 {
        p.engine.submit(id, 1, vec![1]);
    }
    // The first pass drains; the next 64 bring nothing.
    assert_eq!(p.shutdown(), 65);
    assert_eq!(p.engine.pending(), 3);
    // What it tried to flush is in the log.
    let mut ids: Vec<u64> = p
        .log
        .recover()
        .unwrap()
        .iter()
        .map(|r| r.player_id)
        .collect();
    ids.sort();
    ids.dedup();
    assert_eq!(ids, vec![0, 1, 2]);
}

#[test]
fn a_killed_engine_is_replayed() {
    let mut store = MockDb::new();
    store.set_healthy(false);
    let mut p = Pipeline::start(Files::default(), store);
    let (submits, expected) = known_updates(10, 2);
    submit_all(&mut p, &submits);
    assert!(p.flush_now().is_err());
    // The process dies here; only the files remain.
    let mut q = Pipeline::start(p.log.files, MockDb::new());
    assert_eq!(q.engine.pending(), 10);
    assert_eq!(q.flush_now().unwrap(), 10);
    assert_store_exact(&q.store, &expected);
}

fn logged_lsns(p: &mut Pipeline) -> Vec<u64> {
    p.log.recover().unwrap().iter().map(|r| r.lsn).collect()
}

/// Puts a batch with one more entity through the log into the store.
fn flush_another(p: &mut Pipeline, id: PlayerId) {
    let engine = &mut p.engine;
    assert_eq!(engine.submit(id, 1, vec![2]), SubmitOutcome::Enqueued);
    let mut run = FlushRun::new();
    match engine.flush_now(&mut run) {
        FlushStep::Batch(batch) => assert!(p.put_through(batch).is_ok()),
        FlushStep::Done(_) => panic!("a batch was due"),
    }
}

#[test]
fn a_durable_write_survives_checkpoints_until_it_is_stored() {
    let mut p = Pipeline::start(Files::default(), MockDb::new());
    let write = p.engine.submit_durable(1, 5, vec![9]);
    let logged = p.log.append_batch(std::slice::from_ref(write.record()));
    assert_eq!(write.record().lsn, 1);
    // Another write is flushed while the durable one waits to be enqueued.
    flush_another(&mut p, 2);
    assert!(logged_lsns(&mut p).contains(&1));
    assert!(p.engine.finish_durable(write, logged).is_ok());
    // It is drained and taken in a batch, which the store refuses.
    p.store.set_healthy(false);
    assert!(p.flush_now().is_err());
    assert!(p.engine.cache_get(1).is_some());
    assert!(logged_lsns(&mut p).contains(&1));
    // It is taken again, and while that batch is on its way another is persisted
    // and checkpointed.
    p.store.set_healthy(true);
    let held = p.engine.worker_side().next_batch().unwrap();
    flush_another(&mut p, 3);
    assert!(p.store.load(3).is_some());
    assert!(p.store.load(1).is_none());
    assert!(logged_lsns(&mut p).contains(&1));
    assert!(p.put_through(held).is_ok());
    assert_eq!(p.store.load(1).unwrap().version, 5);
    assert!(p.log.recover().unwrap().is_empty());
}

#[test]
fn a_killed_engine_still_has_a_drained_durable_write() {
    let mut p = Pipeline::start(Files::default(), MockDb::new());
    let write = p.engine.submit_durable(1, 5, vec![9]);
    let logged = p.log.append_batch(std::slice::from_ref(write.record()));
    assert!(p.engine.finish_durable(write, logged).is_ok());
    let interval = p.engine.config().flush_interval;
    p.engine.worker_side().pass(&mut p.worker, interval);
    let held = p.engine.worker_side().next_batch().unwrap();
    flush_another(&mut p, 2);
    // The process dies with the batch unlogged; files and store remain.
    drop(held);
    let mut q = Pipeline::start(p.log.files, p.store);
    assert_eq!(q.engine.cache_get(1).unwrap().version, 5);
    // The record behind it is replayed with it, and changes nothing.
    assert_eq!(q.flush_now().unwrap(), 2);
    assert_eq!(q.store.load(1).unwrap().blob, vec![9]);
    assert!(q.log.recover().unwrap().is_empty());
}

#[test]
fn recovered_records_stay_in_the_log_until_they_are_stored() {
    let mut store = MockDb::new();
    store.set_healthy(false);
    let mut p = Pipeline::start(Files::default(), store);
    p.engine.submit(1, 4, vec![4]);
    assert!(p.flush_now().is_err());
    // The next life takes the replayed entry in a batch, and another batch is
    // checkpointed before that one is through. It dies too.
    let mut q = Pipeline::start(p.log.files, MockDb::new());
    let held = q.engine.worker_side().next_batch().unwrap();
    flush_another(&mut q, 2);
    assert!(logged_lsns(&mut q).contains(&2));
    drop(held);
    let mut r = Pipeline::start(q.log.files, q.store);
    assert_eq!(r.flush_now().unwrap(), 2);
    assert_eq!(r.store.load(1).unwrap().version, 4);
    assert!(r.log.recover().unwrap().is_empty());
}

#[test]
fn records_of_a_refused_batch_stay_until_their_entities_are_stored() {
    let mut store = MockDb::new();
    store.set_healthy(false);
    let mut p = Pipeline::start(Files::default(), store);
    p.engine.submit(1, 1, vec![1]);
    assert!(p.flush_now().is_err());
    assert_eq!(logged_lsns(&mut p), vec![2]);
    p.store.set_healthy(true);
    let held = p.engine.worker_side().next_batch().unwrap();
    flush_another(&mut p, 2);
    assert!(logged_lsns(&mut p).contains(&2));
    assert!(p.put_through(held).is_ok());
    assert!(p.log.recover().unwrap().is_empty());
}

#[test]
fn a_stale_durable_write_does_not_hold_up_checkpoints() {
    let mut p = Pipeline::start(Files::default(), MockDb::new());
    p.engine.submit(1, 9, vec![9]);
    assert_eq!(p.flush_now().unwrap(), 1);
    let write = p.engine.submit_durable(1, 3, vec![3]);
    let logged = p.log.append_batch(std::slice::from_ref(write.record()));
    assert!(p.engine.finish_durable(write, logged).is_ok());
    flush_another(&mut p, 2);
    assert_eq!(p.store.load(1).unwrap().version, 9);
    assert!(p.log.recover().unwrap().is_empty());
}

/// A pipeline with a ring of one slot, whose store holds version 5 of entity 1
/// with the payload 0xA.
fn small_pipeline() -> Pipeline {
    let config = FluxConfig {
        ring_capacity: 1,
        ..test_config()
    };
    let mut p = Pipeline {
        engine: FluxEngine::start(config, &[]).unwrap(),
        log: MemLog::open(Files::default(), true).unwrap(),
        store: MockDb::new(),
        worker: Worker::new(),
    };
    assert_eq!(p.engine.submit(1, 5, vec![0xA]), SubmitOutcome::Enqueued);
    assert_eq!(p.flush_now().unwrap(), 1);
    assert_eq!(p.store.load(1).unwrap().blob, vec![0xA]);
    p
}

fn submit_durable(p: &mut Pipeline, id: PlayerId, version: u64, blob: Vec<u8>) -> Lsn {
    let write = p.engine.submit_durable(id, version, blob);
    let lsn = write.record().lsn;
    let logged = p.log.append_batch(std::slice::from_ref(write.record()));
    assert!(p.engine.finish_durable(write, logged).is_ok());
    lsn
}

#[test]
fn a_dropped_durable_write_that_repeats_a_version_stays_in_the_log() {
    let mut p = small_pipeline();
    // The ring is full: the durable write is logged and dropped.
    assert_eq!(p.engine.submit(2, 1, vec![2]), SubmitOutcome::Enqueued);
    let lsn = submit_durable(&mut p, 1, 5, vec![0xB]);
    assert_eq!(p.engine.pending(), 1);
    // Other batches are accepted, one of them with the same entity and version.
    assert_eq!(p.flush_now().unwrap(), 1);
    assert!(p.store.load(2).is_some());
    assert!(logged_lsns(&mut p).contains(&lsn));
    assert_eq!(p.engine.submit(1, 5, vec![0xC]), SubmitOutcome::Enqueued);
    assert_eq!(p.flush_now().unwrap(), 1);
    let mut kept = p.log.recover().unwrap();
    kept.retain(|r| r.lsn == lsn);
    assert_eq!(kept.len(), 1);
    assert_eq!(kept[0].blob, vec![0xB]);
    // A newer version lets it go.
    assert_eq!(p.engine.submit(1, 6, vec![0xD]), SubmitOutcome::Enqueued);
    assert_eq!(p.flush_now().unwrap(), 1);
    assert!(p.log.recover().unwrap().is_empty());
}

#[test]
fn a_dropped_durable_write_is_replayed_into_the_store() {
    let mut p = small_pipeline();
    assert_eq!(p.engine.submit(2, 1, vec![2]), SubmitOutcome::Enqueued);
    submit_durable(&mut p, 1, 5, vec![0xB]);
    assert_eq!(p.flush_now().unwrap(), 1);
    assert_eq!(p.store.load(1).unwrap().blob, vec![0xA]);
    let mut q = Pipeline::start(p.log.files, p.store);
    assert_eq!(q.flush_now().unwrap(), 2);
    assert_eq!(q.store.load(1).unwrap().blob, vec![0xB]);
    assert!(q.log.recover().unwrap().is_empty());
}

#[test]
fn a_queued_durable_write_that_repeats_a_version_stays_until_it_is_flushed() {
    let mut p = small_pipeline();
    // A batch is on its way while the durable write waits in the ring.
    assert_eq!(p.engine.submit(2, 1, vec![2]), SubmitOutcome::Enqueued);
    let mut run = FlushRun::new();
    let batch = match p.engine.flush_now(&mut run) {
        FlushStep::Batch(batch) => batch,
        FlushStep::Done(_) => panic!("a batch was due"),
    };
    let lsn = submit_durable(&mut p, 1, 5, vec![0xB]);
    assert_eq!(p.engine.pending(), 1);
    assert!(p.put_through(batch).is_ok());
    assert!(logged_lsns(&mut p).contains(&lsn));
    assert_eq!(p.flush_now().unwrap(), 1);
    assert_eq!(p.store.load(1).unwrap().blob, vec![0xB]);
    assert!(p.log.recover().unwrap().is_empty());
}

#[test]
fn a_later_write_of_the_same_version_takes_a_durable_one_along() {
    let mut p = Pipeline::start(Files::default(), MockDb::new());
    submit_durable(&mut p, 1, 5, vec![0xB]);
    assert_eq!(p.engine.submit(1, 5, vec![0xC]), SubmitOutcome::Enqueued);
    assert_eq!(p.flush_now().unwrap(), 1);
    assert_eq!(p.store.load(1).unwrap().blob, vec![0xC]);
    assert!(p.log.recover().unwrap().is_empty());
}

#[test]
fn a_batch_from_before_a_durable_write_was_drained_does_not_settle_it() {
    let mut p = Pipeline::start(Files::default(), MockDb::new());
    assert_eq!(p.engine.submit(1, 5, vec![0xA]), SubmitOutcome::Enqueued);
    let interval = p.engine.config().flush_interval;
    p.engine.worker_side().pass(&mut p.worker, interval);
    let early = p.engine.worker_side().next_batch().unwrap();
    let lsn = submit_durable(&mut p, 1, 5, vec![0xB]);
    p.engine.worker_side().pass(&mut p.worker, interval);
    assert!(p.put_through(early).is_ok());
    assert_eq!(p.store.load(1).unwrap().blob, vec![0xA]);
    assert!(logged_lsns(&mut p).contains(&lsn));
    assert_eq!(p.flush_now().unwrap(), 1);
    assert_eq!(p.store.load(1).unwrap().blob, vec![0xB]);
    assert!(p.log.recover().unwrap().is_empty());
}

#[test]
fn a_flush_persists_each_dirty_entry_once() {
    let mut p = Pipeline::start(Files::default(), MockDb::new());
    let (submits, expected) = known_updates(150, 3);
    submit_all(&mut p, &submits);
    assert_eq!(p.flush_now().unwrap(), 150);
    // Batches of 64, 64 and 22.
    assert_eq!(p.store.persisted_batches(), 3);
    assert_eq!(p.engine.metrics().records_flushed, 150);
    assert_store_exact(&p.store, &expected);
    assert_eq!(p.flush_now().unwrap(), 0);
}

#[test]
fn a_batch_is_handed_to_the_store_as_often_as_the_limit_allows() {
    let mut store = MockDb::new();
    store.fail_next_batches(4);
    let mut p = Pipeline::start(Files::default(), store);
    p.engine.submit(1, 1, vec![1]);
    assert_eq!(p.flush_now().unwrap(), 1);
    assert_eq!(p.engine.metrics().store_retries, 4);
    assert_eq!(p.engine.metrics().store_errors, 0);
    p.store.fail_next_batches(5);
    p.engine.submit(1, 2, vec![2]);
    assert!(p.flush_now().is_err());
    assert_eq!(p.engine.metrics().store_retries, 8);
    assert_eq!(p.engine.metrics().store_errors, 1);
    assert_eq!(p.flush_now().unwrap(), 1);
}

#[test]
fn a_durable_write_that_finds_the_ring_full_stays_in_the_log() {
    let mut log = MemLog::open(Files::default(), true).unwrap();
    let config = FluxConfig {
        ring_capacity: 1,
        ..test_config()
    };
    let mut engine = FluxEngine::start(config, &[]).unwrap();
    assert_eq!(engine.submit(1, 1, vec![]), SubmitOutcome::Enqueued);
    let write = engine.submit_durable(2, 1, vec![7]);
    let logged = log.append_batch(std::slice::from_ref(write.record()));
    assert!(engine.finish_durable(write, logged).is_ok());
    assert_eq!(engine.pending(), 1);
    let mut p = Pipeline {
        engine,
        log,
        store: MockDb::new(),
        worker: Worker::new(),
    };
    assert_eq!(p.flush_now().unwrap(), 1);
    let kept = p.log.recover().unwrap();
    assert!(kept.iter().any(|r| r.player_id == 2 && r.blob == vec![7]));
    assert!(p.store.load(2).is_none());
}

#[test]
fn a_durable_write_that_is_not_logged_is_not_pending() {
    let mut p = Pipeline::start(Files::default(), MockDb::new());
    let write = p.engine.submit_durable(1, 1, vec![]);
    let result = p
        .engine
        .finish_durable(write, Err(std::io::Error::other("disk full")));
    assert_eq!(result.unwrap_err().to_string(), "disk full");
    assert_eq!(p.engine.pending(), 0);
    p.engine.submit(2, 1, vec![]);
    assert_eq!(p.flush_now().unwrap(), 1);
    assert!(p.log.recover().unwrap().is_empty());
}

#[test]
fn a_batch_that_is_not_logged_goes_back() {
    let mut p = Pipeline::start(Files::default(), MockDb::new());
    p.engine.submit(1, 1, vec![1]);
    let mut run = FlushRun::new();
    match p.engine.flush_now(&mut run) {
        FlushStep::Batch(batch) => {
            let e = p
                .engine
                .worker_side()
                .append_failed(batch, std::io::Error::other("no space"));
            assert_eq!(e.message(), "io error: no space");
        }
        FlushStep::Done(_) => panic!("a batch was due"),
    }
    assert_eq!(p.engine.pending(), 1);
    assert_eq!(p.engine.metrics().store_errors, 0);
    assert_eq!(p.engine.metrics().wal_appends, 0);
    p.pass();
    assert_eq!(p.store.count(), 1);
}
