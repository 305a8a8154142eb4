use flux_throughput::domain::{PersistenceStore, PlayerId, PlayerState};
use flux_throughput::error::StoreError;
use flux_throughput::store::MockDb;
use flux_throughput::time::Span;

fn st(player_id: PlayerId, version: u64, blob: &[u8]) -> PlayerState {
    PlayerState {
        player_id,
        version,
        blob: blob.to_vec(),
    }
}

#[test]
fn empty_store_starts_clean() {
    let db = MockDb::new();
    assert_eq!(db.count(), 0);
    assert_eq!(db.persisted_batches(), 0);
    assert!(db.load(1).is_none());
    assert!(db.snapshot().is_empty());
}

#[test]
fn happy_path_upserts_and_counts() {
    let mut db = MockDb::new();
    db.persist_batch(&[st(1, 1, b"a"), st(2, 1, b"b")]).unwrap();

    assert_eq!(db.count(), 2);
    assert_eq!(db.persisted_batches(), 1);
    assert_eq!(db.load(1), Some(st(1, 1, b"a")));
    assert_eq!(db.load(2), Some(st(2, 1, b"b")));

    let mut snap = db.snapshot();
    snap.sort_by_key(|s| s.player_id);
    assert_eq!(snap, vec![st(1, 1, b"a"), st(2, 1, b"b")]);
}

#[test]
fn empty_batch_is_a_valid_noop_flush() {
    let mut db = MockDb::new();
    db.persist_batch(&[]).unwrap();
    assert_eq!(db.persisted_batches(), 1);
    assert_eq!(db.count(), 0);
}

#[test]
fn last_write_wins_newer_version_overwrites() {
    let mut db = MockDb::new();
    db.persist_batch(&[st(1, 1, b"old")]).unwrap();
    db.persist_batch(&[st(1, 5, b"new")]).unwrap();
    assert_eq!(db.load(1), Some(st(1, 5, b"new")));
    assert_eq!(db.count(), 1);
}

#[test]
fn last_write_wins_stale_version_ignored() {
    let mut db = MockDb::new();
    db.persist_batch(&[st(1, 5, b"new")]).unwrap();
    db.persist_batch(&[st(1, 2, b"stale")]).unwrap();
    assert_eq!(db.load(1), Some(st(1, 5, b"new")));
}

#[test]
fn last_write_wins_equal_version_overwrites_idempotently() {
    let mut db = MockDb::new();
    db.persist_batch(&[st(1, 3, b"first")]).unwrap();
    db.persist_batch(&[st(1, 3, b"second")]).unwrap();
    assert_eq!(db.load(1), Some(st(1, 3, b"second")));
}

#[test]
fn last_write_wins_within_single_batch() {
    let mut db = MockDb::new();
    db.persist_batch(&[st(1, 1, b"a"), st(1, 4, b"b"), st(1, 2, b"c")])
        .unwrap();
    assert_eq!(db.load(1), Some(st(1, 4, b"b")));
    assert_eq!(db.count(), 1);
}

#[test]
fn unhealthy_returns_retryable_unavailable() {
    let mut db = MockDb::new();
    db.set_healthy(false);

    let err = db.persist_batch(&[st(1, 1, b"x")]).unwrap_err();
    assert!(matches!(err, StoreError::Unavailable));
    assert!(err.is_retryable());
    assert_eq!(db.count(), 0);
    assert_eq!(db.persisted_batches(), 0);
    db.set_healthy(true);
    db.persist_batch(&[st(1, 1, b"x")]).unwrap();
    assert_eq!(db.load(1), Some(st(1, 1, b"x")));
    assert_eq!(db.persisted_batches(), 1);
}

#[test]
fn fail_next_batches_fails_then_recovers() {
    let mut db = MockDb::new();
    db.fail_next_batches(2);

    for _ in 0..2 {
        let err = db.persist_batch(&[st(1, 1, b"x")]).unwrap_err();
        match err {
            StoreError::Transient(ref m) => assert_eq!(m, "injected"),
            other => panic!("expected Transient(\"injected\"), got {other:?}"),
        }
        assert!(err.is_retryable());
    }
    assert_eq!(db.persisted_batches(), 0);
    assert_eq!(db.count(), 0);
    db.persist_batch(&[st(1, 1, b"x")]).unwrap();
    assert_eq!(db.persisted_batches(), 1);
    assert_eq!(db.load(1), Some(st(1, 1, b"x")));
}

#[test]
fn fail_next_batches_overwrites_not_accumulates() {
    let mut db = MockDb::new();
    db.fail_next_batches(5);
    db.fail_next_batches(1);
    assert!(db.persist_batch(&[st(1, 1, b"x")]).is_err());
    assert!(db.persist_batch(&[st(1, 1, b"x")]).is_ok());
}

#[test]
fn fail_every_third_attempt_is_periodic() {
    let mut db = MockDb::new();
    db.set_fail_every(3);
    let mut outcomes = Vec::new();
    for _ in 0..6 {
        outcomes.push(db.persist_batch(&[st(1, 1, b"x")]).is_ok());
    }
    assert_eq!(outcomes, vec![true, true, false, true, true, false]);
    assert_eq!(db.persisted_batches(), 4);
    assert_eq!(db.count(), 1);
    db.set_fail_every(1);
    let err = db.persist_batch(&[st(2, 1, b"y")]).unwrap_err();
    match err {
        StoreError::Transient(ref m) => assert_eq!(m, "periodic"),
        other => panic!("expected Transient(\"periodic\"), got {other:?}"),
    }
    assert!(err.is_retryable());
}

#[test]
fn fail_every_zero_disables_periodic_failure() {
    let mut db = MockDb::new();
    db.set_fail_every(0);
    for _ in 0..10 {
        db.persist_batch(&[st(1, 1, b"x")]).unwrap();
    }
    assert_eq!(db.persisted_batches(), 10);
}

#[test]
fn health_check_precedes_fail_next() {
    let mut db = MockDb::new();
    db.fail_next_batches(1);
    db.set_healthy(false);

    assert!(matches!(
        db.persist_batch(&[st(1, 1, b"x")]).unwrap_err(),
        StoreError::Unavailable
    ));

    db.set_healthy(true);
    match db.persist_batch(&[st(1, 1, b"x")]).unwrap_err() {
        StoreError::Transient(m) => assert_eq!(m, "injected"),
        other => panic!("expected injected transient, got {other:?}"),
    }
    assert!(db.persist_batch(&[st(1, 1, b"x")]).is_ok());
}

#[test]
fn latency_is_kept_in_nanoseconds() {
    let mut db = MockDb::default();
    assert_eq!(db.latency_nanos(), 0);
    db.set_latency(Span::from_millis(20));
    assert_eq!(db.latency_nanos(), 20_000_000);
    db.set_latency(Span::from_micros(3));
    assert_eq!(db.latency_nanos(), 3_000);
    db.set_latency(Span { nanos: u128::MAX });
    assert_eq!(db.latency_nanos(), u64::MAX);
    db.set_latency(Span { nanos: 0 });
    assert!(db.persist_batch(&[st(1, 1, b"x")]).is_ok());
}

#[test]
fn replaying_a_batch_changes_nothing() {
    let mut db = MockDb::new();
    let batch = [st(1, 3, b"a"), st(2, 1, b"b"), st(1, 3, b"c"), st(1, 2, b"d")];
    db.persist_batch(&batch).unwrap();
    let mut once = db.snapshot();
    once.sort_by_key(|s| s.player_id);
    db.persist_batch(&batch).unwrap();
    let mut twice = db.snapshot();
    twice.sort_by_key(|s| s.player_id);
    assert_eq!(once, vec![st(1, 3, b"c"), st(2, 1, b"b")]);
    assert_eq!(once, twice);
}

#[test]
fn injected_failures_do_not_count_as_attempts() {
    let mut db = MockDb::new();
    db.set_fail_every(2);
    db.fail_next_batches(1);
    let mut outcomes = Vec::new();
    for _ in 0..4 {
        outcomes.push(db.persist_batch(&[st(1, 1, b"x")]).is_ok());
    }
    assert_eq!(outcomes, vec![false, true, false, true]);
}
