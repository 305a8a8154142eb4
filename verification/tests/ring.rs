use flux_throughput::domain::{Queue, WriteRequest};
use flux_throughput::ring::{
    free_stamp, occupancy, published_stamp, ring_capacity, slot_index, slot_turn, RingBuffer, Turn,
};

fn req(seq: u64) -> WriteRequest {
    WriteRequest {
        player_id: seq,
        version: 1,
        blob: vec![(seq & 0xFF) as u8],
        seq,
    }
}

#[test]
fn single_thread_enqueue_dequeue_full_empty() {
    let mut ring = RingBuffer::new(3);
    assert_eq!(ring.capacity(), 4);
    assert!(ring.is_empty());
    assert_eq!(ring.len(), 0);
    assert!(ring.try_dequeue().is_none());
    for i in 0..4 {
        assert!(ring.try_enqueue(req(i)).is_ok(), "enqueue {i} should fit");
    }
    assert_eq!(ring.len(), 4);
    let overflow = ring.try_enqueue(req(99));
    match overflow {
        Err(returned) => assert_eq!(returned.seq, 99),
        Ok(()) => panic!("ring should have been full"),
    }
    for i in 0..4 {
        let got = ring.try_dequeue().expect("item present");
        assert_eq!(got.seq, i, "FIFO order");
    }
    assert!(ring.is_empty());
    assert!(ring.try_dequeue().is_none());
    assert!(ring.try_enqueue(req(123)).is_ok());
    assert_eq!(ring.try_dequeue().unwrap().seq, 123);
    for i in 0..4 {
        ring.try_enqueue(req(i)).unwrap();
    }
    let mut out = Vec::new();
    let n = ring.drain_into(&mut out, 10);
    assert_eq!(n, 4);
    assert_eq!(out.len(), 4);
    assert!(ring.is_empty());
}

#[test]
fn capacity_is_the_next_power_of_two() {
    assert_eq!(ring_capacity(0), 1);
    assert_eq!(ring_capacity(1), 1);
    assert_eq!(ring_capacity(2), 2);
    assert_eq!(ring_capacity(3), 4);
    assert_eq!(ring_capacity(4), 4);
    assert_eq!(ring_capacity(5), 8);
    assert_eq!(ring_capacity(65_537), 131_072);
}

#[test]
fn a_ring_of_one_is_full_after_one() {
    let mut ring = RingBuffer::new(1);
    assert_eq!(ring.capacity(), 1);
    assert!(ring.try_enqueue(req(1)).is_ok());
    assert_eq!(ring.try_enqueue(req(2)).unwrap_err().seq, 2);
    assert_eq!(ring.len(), 1);
    assert_eq!(ring.try_dequeue().unwrap().seq, 1);
    assert!(ring.try_dequeue().is_none());
    assert!(ring.try_enqueue(req(3)).is_ok());
    assert_eq!(ring.try_dequeue().unwrap().seq, 3);
}

#[test]
fn order_is_kept_over_many_laps() {
    let mut ring = RingBuffer::new(4);
    let mut next_in = 0u64;
    let mut next_out = 0u64;
    for round in 0..1000u64 {
        for _ in 0..(round % 5) {
            if ring.try_enqueue(req(next_in)).is_ok() {
                next_in += 1;
            }
        }
        assert!(ring.len() <= 4);
        for _ in 0..(round % 3) {
            if let Some(got) = ring.try_dequeue() {
                assert_eq!(got.seq, next_out);
                next_out += 1;
            }
        }
        assert_eq!(ring.len() as u64, next_in - next_out);
    }
    assert!(next_out > 500);
}

#[test]
fn draining_stops_at_max_and_appends() {
    let mut ring = RingBuffer::new(8);
    for i in 0..5 {
        ring.try_enqueue(req(i)).unwrap();
    }
    let mut out = vec![req(77)];
    assert_eq!(ring.drain_into(&mut out, 3), 3);
    assert_eq!(out.iter().map(|r| r.seq).collect::<Vec<_>>(), vec![77, 0, 1, 2]);
    assert_eq!(ring.drain_into(&mut out, 0), 0);
    assert_eq!(ring.drain_into(&mut out, 9), 2);
    assert!(ring.is_empty());
}

#[test]
fn stamps_and_turns() {
    assert_eq!(free_stamp(3), 6);
    assert_eq!(published_stamp(3), 7);
    assert_eq!(free_stamp(u64::MAX), u64::MAX - 1);
    assert_eq!(slot_turn(6, 6), Turn::Mine);
    assert_eq!(slot_turn(5, 6), Turn::Behind);
    assert_eq!(slot_turn(7, 6), Turn::Ahead);
    assert_eq!(slot_turn(u64::MAX, 0), Turn::Behind);
    assert_eq!(slot_turn(0, u64::MAX), Turn::Ahead);
    assert_eq!(slot_index(13, 7), 5);
    assert_eq!(slot_index(13, 0), 0);
}

#[test]
fn occupancy_is_clamped() {
    assert_eq!(occupancy(7, 4, 8), 3);
    assert_eq!(occupancy(4, 4, 8), 0);
    assert_eq!(occupancy(3, 4, 8), 0);
    assert_eq!(occupancy(20, 4, 8), 8);
    assert_eq!(occupancy(1, u64::MAX, 8), 2);
}

#[test]
fn a_slow_producer_holds_back_consumers_but_loses_nothing() {
    let mask = 1u64;
    let mut stamps = [free_stamp(0), free_stamp(1)];
    let at = |pos: u64| slot_index(pos, mask) as usize;
    // Two producers claim positions 0 and 1; the second publishes first.
    assert_eq!(slot_turn(stamps[at(0)], free_stamp(0)), Turn::Mine);
    assert_eq!(slot_turn(stamps[at(1)], free_stamp(1)), Turn::Mine);
    stamps[at(1)] = published_stamp(1);
    // The consumer waits for position 0, and a third producer finds no room.
    assert_eq!(slot_turn(stamps[at(0)], published_stamp(0)), Turn::Behind);
    assert_eq!(slot_turn(stamps[at(2)], free_stamp(2)), Turn::Behind);
    stamps[at(0)] = published_stamp(0);
    assert_eq!(slot_turn(stamps[at(0)], published_stamp(0)), Turn::Mine);
    assert_eq!(slot_turn(stamps[at(2)], free_stamp(2)), Turn::Behind);
    // Once position 0 is freed, its slot waits for position 2.
    stamps[at(0)] = free_stamp(mask + 1);
    assert_eq!(slot_turn(stamps[at(2)], free_stamp(2)), Turn::Mine);
    // A thread that still looks at position 0 sees that others have moved on.
    assert_eq!(slot_turn(stamps[at(0)], free_stamp(0)), Turn::Ahead);
    assert_eq!(slot_turn(stamps[at(1)], published_stamp(1)), Turn::Mine);
}

#[test]
fn claims_may_be_published_in_any_order() {
    let mut ring = RingBuffer::new(2);
    let first = ring.claim_put().unwrap();
    let second = ring.claim_put().unwrap();
    assert_eq!((first, second), (0, 1));
    // Both slots are claimed: a third producer is refused.
    assert!(ring.claim_put().is_none());
    ring.publish(second, req(11));
    // The oldest is not published yet: a consumer is refused.
    assert!(ring.claim_get().is_none());
    ring.publish(first, req(10));
    let a = ring.claim_get().unwrap();
    let b = ring.claim_get().unwrap();
    assert!(ring.claim_get().is_none());
    // Neither slot is freed yet.
    assert!(ring.claim_put().is_none());
    assert_eq!(ring.free(b).unwrap().seq, 11);
    // The slot of the next position is still being read.
    assert!(ring.claim_put().is_none());
    assert_eq!(ring.free(a).unwrap().seq, 10);
    assert_eq!(ring.claim_put(), Some(2));
    ring.publish(2, req(12));
    assert_eq!(ring.try_dequeue().unwrap().seq, 12);
    assert!(ring.is_empty());
}

#[test]
fn freeing_an_empty_slot_yields_nothing() {
    let mut ring = RingBuffer::new(2);
    assert!(ring.free(0).is_none());
}

/// Four producers and two consumers take turns step by step, in an order that a
/// generator of numbers picks.
#[test]
fn interleaved_steps_lose_and_repeat_nothing() {
    enum Doing {
        Put(u64),
        Writing(u64, u64),
        Get,
        Reading(u64),
    }
    let per_producer = 500u64;
    let mut ring = RingBuffer::new(8);
    let mut made = [0u64; 4];
    let mut threads: Vec<Doing> = Vec::new();
    for t in 0..4u64 {
        threads.push(Doing::Put(t * 1000));
    }
    threads.push(Doing::Get);
    threads.push(Doing::Get);
    let mut out: Vec<u64> = Vec::new();
    let mut random = 12345u64;
    while out.len() < 2000 {
        random = random
            .wrapping_mul(6_364_136_223_846_793_005)
            .wrapping_add(1_442_695_040_888_963_407);
        let t = ((random >> 33) % 6) as usize;
        threads[t] = match threads[t] {
            Doing::Put(seq) if made[t] < per_producer => match ring.claim_put() {
                Some(pos) => Doing::Writing(pos, seq),
                None => Doing::Put(seq),
            },
            Doing::Put(seq) => Doing::Put(seq),
            Doing::Writing(pos, seq) => {
                ring.publish(pos, req(seq));
                made[t] += 1;
                Doing::Put(seq + 1)
            }
            Doing::Get => match ring.claim_get() {
                Some(pos) => Doing::Reading(pos),
                None => Doing::Get,
            },
            Doing::Reading(pos) => {
                out.push(ring.free(pos).unwrap().seq);
                Doing::Get
            }
        };
    }
    assert!(ring.is_empty());
    out.sort();
    let mut expected: Vec<u64> = Vec::new();
    for t in 0..4u64 {
        for i in 0..per_producer {
            expected.push(t * 1000 + i);
        }
    }
    assert_eq!(out, expected);
}
