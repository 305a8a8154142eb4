use flux_throughput::cache::WriteBehindCache;
use flux_throughput::domain::{Cache, PlayerId, PlayerState, WriteRequest};

fn req(player_id: PlayerId, version: u64, seq: u64) -> WriteRequest {
    WriteRequest {
        player_id,
        version,
        blob: vec![version as u8],
        seq,
    }
}
#[test]
fn coalescing_two_applies_one_dirty() {
    let mut cache = WriteBehindCache::new();
    cache.apply(&req(1, 1, 0));
    cache.apply(&req(1, 2, 1));
    assert_eq!(cache.len(), 1, "two writes to one player => one entry");
    assert_eq!(cache.dirty_len(), 1, "coalesced into a single dirty flag");
    let got = cache.get(1).expect("entry present");
    assert_eq!(got.version, 2);
    assert_eq!(got.blob, vec![2u8]);
}
#[test]
fn take_dirty_clears_flags_but_keeps_entries() {
    let mut cache = WriteBehindCache::new();
    cache.apply(&req(1, 5, 0));
    cache.apply(&req(2, 9, 1));
    assert_eq!(cache.dirty_len(), 2);

    let mut taken = cache.take_dirty(100);
    taken.sort_by_key(|s| s.player_id);
    assert_eq!(taken.len(), 2);
    assert_eq!(taken[0].player_id, 1);
    assert_eq!(taken[0].version, 5);
    assert_eq!(taken[1].player_id, 2);
    assert_eq!(taken[1].version, 9);
    assert_eq!(cache.dirty_len(), 0, "take_dirty clears the dirty flags");
    assert_eq!(cache.len(), 2, "entries remain in the map for reads");
    assert_eq!(cache.get(1).unwrap().version, 5);
    assert!(cache.take_dirty(100).is_empty());
}
#[test]
fn take_dirty_respects_max() {
    let mut cache = WriteBehindCache::new();
    for id in 0..5 {
        cache.apply(&req(id, 1, id));
    }
    assert_eq!(cache.dirty_len(), 5);

    let first = cache.take_dirty(2);
    assert_eq!(first.len(), 2, "honors the max cap");
    assert_eq!(cache.dirty_len(), 3, "remaining still dirty");

    let second = cache.take_dirty(100);
    assert_eq!(second.len(), 3, "drains the remainder");
    assert_eq!(cache.dirty_len(), 0);
}
#[test]
fn requeue_restores_dirty() {
    let mut cache = WriteBehindCache::new();
    cache.apply(&req(1, 3, 0));
    let staged = cache.take_dirty(10);
    assert_eq!(cache.dirty_len(), 0);
    cache.requeue_dirty(staged);
    assert_eq!(cache.dirty_len(), 1, "requeue re-arms the dirty flag");

    let again = cache.take_dirty(10);
    assert_eq!(again.len(), 1);
    assert_eq!(
        again[0].version, 3,
        "the same update survives to be retried"
    );
}
#[test]
fn requeue_does_not_clobber_newer_write() {
    let mut cache = WriteBehindCache::new();
    cache.apply(&req(1, 3, 0));
    let staged = cache.take_dirty(10);
    cache.apply(&req(1, 7, 1));

    cache.requeue_dirty(staged);
    let got = cache.get(1).unwrap();
    assert_eq!(got.version, 7, "newer concurrent write preserved");
    assert_eq!(got.blob, vec![7u8]);
    assert_eq!(cache.dirty_len(), 1);
    let drained = cache.take_dirty(10);
    assert_eq!(drained.len(), 1);
    assert_eq!(drained[0].version, 7);
}
#[test]
fn stale_version_rejected() {
    let mut cache = WriteBehindCache::new();
    cache.apply(&req(1, 10, 0));
    let _ = cache.take_dirty(10);
    assert_eq!(cache.dirty_len(), 0);
    cache.apply(&req(1, 4, 1));
    let got = cache.get(1).unwrap();
    assert_eq!(got.version, 10, "stale write rejected, newer state kept");
    assert_eq!(got.blob, vec![10u8]);
    assert_eq!(
        cache.dirty_len(),
        0,
        "stale apply must not re-dirty a clean entry"
    );
}
#[test]
fn equal_version_rearms_dirty() {
    let mut cache = WriteBehindCache::new();
    cache.apply(&req(1, 5, 0));
    let _ = cache.take_dirty(10);
    assert_eq!(cache.dirty_len(), 0);
    cache.apply(&req(1, 5, 1));
    assert_eq!(
        cache.dirty_len(),
        1,
        "equal version re-arms dirty under >= semantics"
    );
}
#[test]
fn requeue_reinserts_absent_entry() {
    let mut cache = WriteBehindCache::new();
    let orphan = PlayerState {
        player_id: 42,
        version: 1,
        blob: vec![0xAB],
    };
    assert!(cache.get(42).is_none());

    cache.requeue_dirty(vec![orphan.clone()]);
    assert_eq!(cache.dirty_len(), 1, "absent entry reinserted as dirty");
    assert_eq!(cache.get(42).unwrap(), orphan);
}

#[test]
fn an_equal_version_replaces_the_state() {
    let mut cache = WriteBehindCache::new();
    cache.apply(&req(1, 5, 0));
    cache.apply(&WriteRequest {
        player_id: 1,
        version: 5,
        blob: vec![0xEE],
        seq: 1,
    });
    assert_eq!(cache.get(1).unwrap().blob, vec![0xEE]);
    assert_eq!(cache.dirty_len(), 1);
}

#[test]
fn a_stale_write_leaves_a_dirty_entry_dirty() {
    let mut cache = WriteBehindCache::new();
    cache.apply(&req(1, 5, 0));
    cache.apply(&req(1, 4, 1));
    assert_eq!(cache.dirty_len(), 1);
    assert_eq!(cache.get(1).unwrap().version, 5);
}

#[test]
fn giving_back_what_was_taken_restores_the_cache() {
    let mut cache = WriteBehindCache::default();
    for id in 0..6 {
        cache.apply(&req(id, id + 1, id));
    }
    let taken = cache.take_dirty(4);
    assert_eq!(taken.len(), 4);
    cache.requeue_dirty(taken);
    assert_eq!(cache.dirty_len(), 6);
    assert_eq!(cache.len(), 6);
    for id in 0..6 {
        assert_eq!(cache.get(id).unwrap().version, id + 1);
    }
}

#[test]
fn taking_nothing_or_from_nothing() {
    let mut cache = WriteBehindCache::new();
    assert!(cache.is_empty());
    assert!(cache.take_dirty(3).is_empty());
    cache.apply(&req(1, 1, 0));
    assert!(!cache.is_empty());
    assert!(cache.take_dirty(0).is_empty());
    assert_eq!(cache.dirty_len(), 1);
}

fn payload(version: u64, blob: u8) -> WriteRequest {
    WriteRequest {
        player_id: 1,
        version,
        blob: vec![blob],
        seq: 0,
    }
}

#[test]
fn giving_back_an_equal_version_keeps_the_later_write() {
    let mut cache = WriteBehindCache::new();
    cache.apply(&payload(5, 0xA));
    let first = cache.take_dirty(10);
    cache.apply(&payload(5, 0xB));
    // The later write is taken too, so that the entry is clean.
    let second = cache.take_dirty(10);
    assert_eq!(second[0].blob, vec![0xB]);
    assert_eq!(cache.dirty_len(), 0);
    cache.requeue_dirty(first);
    assert_eq!(cache.get(1).unwrap().blob, vec![0xB]);
    assert_eq!(cache.dirty_len(), 1, "the entry is dirty again");
    assert_eq!(cache.take_dirty(10)[0].blob, vec![0xB]);
}

#[test]
fn giving_back_restores_over_an_older_state() {
    let mut cache = WriteBehindCache::new();
    cache.apply(&payload(2, 0xA));
    assert_eq!(cache.take_dirty(10).len(), 1);
    cache.requeue_dirty(vec![PlayerState {
        player_id: 1,
        version: 3,
        blob: vec![0xC],
    }]);
    assert_eq!(cache.get(1).unwrap().version, 3);
    assert_eq!(cache.get(1).unwrap().blob, vec![0xC]);
    assert_eq!(cache.dirty_len(), 1);
}

#[test]
fn giving_back_under_a_newer_clean_state_changes_nothing() {
    let mut cache = WriteBehindCache::new();
    cache.apply(&payload(2, 0xA));
    let old = cache.take_dirty(10);
    cache.apply(&payload(7, 0xB));
    assert_eq!(cache.take_dirty(10).len(), 1);
    cache.requeue_dirty(old);
    assert_eq!(cache.get(1).unwrap().blob, vec![0xB]);
    assert_eq!(cache.dirty_len(), 0);
}
