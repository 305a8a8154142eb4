use flux_throughput::metrics::{Metrics, MetricsSnapshot};

#[test]
fn fetch_max_keeps_peak() {
    let mut m = Metrics::new();
    m.record_submit_enqueued(10);
    m.record_submit_enqueued(50);
    m.record_submit_enqueued(30);
    let s = m.snapshot();
    assert_eq!(s.submits_enqueued, 3);
    assert_eq!(s.max_submit_nanos, 50);
    assert_eq!(s.sum_submit_nanos, 90);
    let average = s.sum_submit_nanos as f64 / s.submits_enqueued as f64;
    assert!((average - 30.0).abs() < 1e-9);
}

#[test]
fn fresh_metrics_are_zero() {
    assert_eq!(Metrics::new().snapshot(), MetricsSnapshot::default());
    assert_eq!(Metrics::default().snapshot().flushes, 0);
}

#[test]
fn every_counter_counts() {
    let mut m = Metrics::new();
    m.record_submit_dropped();
    m.record_flush(7, 100);
    m.record_flush(3, 40);
    m.record_wal_append(5, 1);
    m.record_wal_append(6, 2);
    m.record_store_error();
    m.record_store_retry();
    m.record_store_retry();
    let s = m.snapshot();
    assert_eq!(s.submits_dropped, 1);
    assert_eq!(s.flushes, 2);
    assert_eq!(s.records_flushed, 10);
    assert_eq!(s.max_flush_nanos, 100);
    assert_eq!(s.wal_appends, 2);
    assert_eq!(s.wal_records, 11);
    assert_eq!(s.store_errors, 1);
    assert_eq!(s.store_retries, 2);
    assert_eq!(s.submits_enqueued, 0);
}
