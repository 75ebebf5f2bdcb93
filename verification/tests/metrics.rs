//! Counters, history and registry of the metrics.
use frp_core::clock::{day_of, days_since_epoch};
use frp_core::metrics::{
    ConnGuard, MetricsSnapshot, ProxyMetrics, ProxyMetricsRegistry, TrafficHistory,
};

#[test]
fn test_snapshot_counts() {
    let mut m = ProxyMetrics::new("t".into());
    m.record_traffic(100, 200);
    let s = m.snapshot();
    assert_eq!(s.bytes_in, 100);
    assert_eq!(s.bytes_out, 200);
}

#[test]
fn test_registry_reuses_metrics() {
    let mut reg = ProxyMetricsRegistry::new();
    let m1 = reg.get_or_create("p1");
    reg.at(m1).record_traffic(10, 0);
    let m2 = reg.get_or_create("p1");
    assert_eq!(reg.at(m2).snapshot().bytes_in, 10);
}

#[test]
fn test_registry_remove() {
    let mut reg = ProxyMetricsRegistry::new();
    reg.get_or_create("p1");
    assert!(reg.get("p1").is_some());
    reg.remove("p1");
    assert!(reg.get("p1").is_none());
}

#[test]
fn removing_one_proxy_leaves_the_others() {
    let mut reg = ProxyMetricsRegistry::new();
    let a = reg.get_or_create("a");
    reg.at(a).record_traffic(1, 2);
    reg.get_or_create("b");
    reg.remove("b");
    reg.remove("c");
    assert_eq!(reg.get("a").unwrap().snapshot().bytes_out, 2);
    assert!(reg.get("b").is_none());
}

#[test]
fn test_conn_guard_lifecycle() {
    let mut m = ProxyMetrics::new("g".into());
    assert_eq!(m.snapshot().current_conns, 0);
    {
        let g = ConnGuard::new(&mut m);
        assert_eq!(m.snapshot().current_conns, 1);
        assert_eq!(m.snapshot().total_conns, 1);
        g.release(&mut m);
    }
    assert_eq!(m.snapshot().current_conns, 0);
    assert_eq!(m.snapshot().total_conns, 1);
}

#[test]
fn test_traffic_history_initial() {
    let h = TrafficHistory::new();
    let (tin, tout) = h.snapshot();
    assert_eq!(tin, [0; 7]);
    assert_eq!(tout, [0; 7]);
}

#[test]
fn test_traffic_history_record_today() {
    let mut h = TrafficHistory::new();
    h.record(100, 200);
    let (tin, tout) = h.snapshot();
    assert_eq!(tin[0], 100);
    assert_eq!(tout[0], 200);
    assert_eq!(tin[1], 0);
}

#[test]
fn test_traffic_history_accumulates() {
    let mut h = TrafficHistory::new();
    h.record(10, 20);
    h.record(30, 40);
    let (tin, tout) = h.snapshot();
    assert_eq!(tin[0], 40);
    assert_eq!(tout[0], 60);
}

#[test]
fn history_moves_with_the_days() {
    let mut h = TrafficHistory::on_day(100);
    h.record_on(100, 1, 10);
    h.record_on(102, 2, 20);
    h.record_on(103, 3, 30);
    let (tin, tout) = h.snapshot();
    assert_eq!(tin, [3, 2, 0, 1, 0, 0, 0]);
    assert_eq!(tout, [30, 20, 0, 10, 0, 0, 0]);
    h.record_on(110, 4, 40);
    assert_eq!(h.snapshot().0, [4, 0, 0, 0, 0, 0, 0]);
    // A clock that goes back empties the history.
    h.record_on(109, 5, 50);
    assert_eq!(h.snapshot().0, [5, 0, 0, 0, 0, 0, 0]);
}

#[test]
fn history_is_full_at_the_greatest_count() {
    let mut h = TrafficHistory::on_day(1);
    h.record_on(1, u64::MAX, 1);
    h.record_on(1, 5, u64::MAX);
    assert_eq!(h.snapshot().0[0], u64::MAX);
    assert_eq!(h.snapshot().1[0], u64::MAX);
}

#[test]
fn counters_wrap_around() {
    let mut m = ProxyMetrics::new("w".into());
    m.record_traffic(u64::MAX, 1);
    m.record_traffic(2, 1);
    assert_eq!(m.snapshot().bytes_in, 1);
    assert_eq!(m.snapshot().bytes_out, 2);
    assert_eq!(MetricsSnapshot::default().total_conns, 0);
}

#[test]
fn days_are_counted_from_the_epoch() {
    assert_eq!(day_of(None), 0);
    assert_eq!(day_of(Some(0)), 0);
    assert_eq!(day_of(Some(86_399)), 0);
    assert_eq!(day_of(Some(86_400)), 1);
    assert_eq!(day_of(Some(1_704_067_200)), 19_723);
    // 2024-01-01 lies in the past.
    assert!(days_since_epoch() > 19_723);
}

#[test]
fn a_registry_keeps_what_was_entered_first() {
    let mut reg: ProxyMetricsRegistry<u32> = ProxyMetricsRegistry::new();
    assert_eq!(reg.get_or_insert("a", 1), 0);
    assert_eq!(reg.get_or_insert("b", 2), 1);
    assert_eq!(reg.get_or_insert("a", 3), 0);
    assert_eq!((reg.get("a"), reg.get("b"), reg.get("c")), (Some(&1), Some(&2), None));
    *reg.at(1) = 5;
    reg.remove("a");
    assert_eq!((reg.get("a"), reg.get("b")), (None, Some(&5)));
}
