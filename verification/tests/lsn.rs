use flux_throughput::domain::{PlayerState, WalRecord, WriteRequest};
use flux_throughput::lsn::LsnState;

fn state(player_id: u64, version: u64) -> PlayerState {
    PlayerState {
        player_id,
        version,
        blob: vec![],
    }
}

fn record(lsn: u64, player_id: u64, version: u64) -> WalRecord {
    WalRecord {
        lsn,
        player_id,
        version,
        blob: vec![],
    }
}

#[test]
fn alloc_is_monotonic() {
    let mut s = LsnState::new(5);
    assert_eq!(s.alloc_one(), 5);
    assert_eq!(s.alloc_one(), 6);
    assert_eq!(s.alloc_block(3), 7);
    assert_eq!(s.alloc_one(), 10);
}

#[test]
fn watermark_is_proposal_when_no_pending() {
    let s = LsnState::new(0);
    assert_eq!(s.checkpoint_watermark(42), Some(42));
}

#[test]
fn watermark_clamps_below_min_pending() {
    let mut s = LsnState::new(0);
    s.note_pending(10);
    s.note_pending(20);
    assert_eq!(s.checkpoint_watermark(50), Some(9));
    assert_eq!(s.checkpoint_watermark(5), Some(5));
}

#[test]
fn watermark_none_when_pending_is_zero() {
    let mut s = LsnState::new(0);
    s.note_pending(0);
    assert_eq!(s.checkpoint_watermark(7), None);
}

#[test]
fn draining_clears_the_floor() {
    let mut s = LsnState::new(0);
    s.note_pending(10);
    assert_eq!(s.checkpoint_watermark(50), Some(9));
    s.note_drained(10);
    assert_eq!(s.checkpoint_watermark(50), Some(50));
}

#[test]
fn draining_an_unknown_number_changes_nothing() {
    let mut s = LsnState::new(0);
    s.note_pending(10);
    s.note_drained(11);
    assert_eq!(s.checkpoint_watermark(50), Some(9));
}

#[test]
fn watermark_at_the_floor_itself() {
    let mut s = LsnState::new(0);
    s.note_pending(1);
    assert_eq!(s.checkpoint_watermark(1), Some(0));
    assert_eq!(s.checkpoint_watermark(0), Some(0));
}

#[test]
fn numbers_wrap_at_the_end() {
    let mut s = LsnState::new(u64::MAX);
    assert_eq!(s.alloc_one(), u64::MAX);
    assert_eq!(s.alloc_one(), 0);
}

fn request(seq: u64) -> WriteRequest {
    WriteRequest {
        player_id: 1,
        version: 5,
        blob: vec![],
        seq,
    }
}

#[test]
fn a_logged_number_waits_for_its_entity_in_the_store() {
    let mut s = LsnState::new(0);
    s.note_logged(10, 1, 5, Some(10));
    s.note_accepted(&[state(2, 9)], 20);
    assert_eq!(s.checkpoint_watermark(50), Some(9));
    s.note_accepted(&[state(1, 4)], 21);
    assert_eq!(s.checkpoint_watermark(50), Some(9));
    s.note_accepted(&[state(1, 5)], 22);
    assert_eq!(s.checkpoint_watermark(50), Some(50));
}

#[test]
fn a_newer_version_settles_older_numbers() {
    let mut s = LsnState::new(0);
    s.note_logged(10, 1, 5, None);
    s.note_logged(11, 1, 6, Some(11));
    s.note_logged(12, 1, 9, Some(12));
    s.note_accepted(&[state(1, 6), state(1, 3)], 20);
    assert_eq!(s.checkpoint_watermark(50), Some(11));
}

#[test]
fn an_equal_version_settles_only_what_was_cached_before_its_batch() {
    let mut s = LsnState::new(0);
    s.note_logged(10, 1, 5, None);
    // The content of number 10 is in no batch yet.
    s.note_accepted(&[state(1, 5)], 30);
    assert_eq!(s.checkpoint_watermark(50), Some(9));
    s.note_cached(&[request(9)], 31);
    s.note_accepted(&[state(1, 5)], 31);
    assert_eq!(s.checkpoint_watermark(50), Some(9));
    // It comes into the cache, but this batch was taken before.
    s.note_cached(&[request(9), request(10)], 40);
    s.note_accepted(&[state(1, 5)], 39);
    assert_eq!(s.checkpoint_watermark(50), Some(9));
    // Coming in again changes nothing.
    s.note_cached(&[request(10)], 45);
    s.note_accepted(&[state(1, 5)], 40);
    assert_eq!(s.checkpoint_watermark(50), Some(50));
}

#[test]
fn a_pinned_number_is_settled_by_nothing() {
    let mut s = LsnState::new(0);
    s.note_pending(10);
    s.note_cached(&[request(10)], 0);
    s.note_accepted(&[state(1, 9)], 20);
    assert_eq!(s.checkpoint_watermark(50), Some(9));
}

#[test]
fn a_number_that_was_superseded_before_it_was_logged_is_settled() {
    let mut s = LsnState::new(0);
    s.note_accepted(&[state(1, 9)], 3);
    s.note_logged(10, 1, 5, None);
    assert_eq!(s.checkpoint_watermark(50), Some(9));
    s.note_accepted(&[], 11);
    assert_eq!(s.checkpoint_watermark(50), Some(50));
}

#[test]
fn an_equal_version_from_before_a_number_was_logged_settles_nothing() {
    let mut s = LsnState::new(0);
    s.note_accepted(&[state(1, 5)], 3);
    s.note_logged(10, 1, 5, None);
    s.note_accepted(&[state(2, 1)], 11);
    assert_eq!(s.checkpoint_watermark(50), Some(9));
}

#[test]
fn recovered_numbers_are_pending() {
    let mut s = LsnState::resume(8, &[record(7, 1, 2), record(3, 2, 1)]);
    assert_eq!(s.next_number(), 8);
    assert_eq!(s.checkpoint_watermark(7), Some(2));
    s.note_accepted(&[state(2, 1)], 8);
    assert_eq!(s.checkpoint_watermark(7), Some(6));
    s.note_accepted(&[state(1, 2)], 9);
    assert_eq!(s.checkpoint_watermark(7), Some(7));
}

#[test]
fn blocks_leave_no_gap() {
    let mut s = LsnState::new(7);
    assert_eq!(s.alloc_block(3), 7);
    assert_eq!(s.alloc_block(0), 10);
    assert_eq!(s.alloc_one(), 10);
    assert_eq!(s.next_number(), 11);
}
