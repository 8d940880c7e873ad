use imlob::LatencyMetrics;

#[test]
fn mean_and_p99_of_execution_latencies() {
    let mut m = LatencyMetrics::new();
    for l in [5u64, 1, 4, 2, 3] {
        m.record_execution(l);
    }
    assert_eq!(m.last_execution, Some(3));
    assert_eq!(m.avg_execution, 3);
    assert_eq!(m.p99_execution, 5);
    assert_eq!(m.avg_datafeed, 0);
}

#[test]
fn history_is_capped() {
    let mut m = LatencyMetrics::new();
    for l in 1..=150u64 {
        m.record_datafeed(l);
    }
    assert_eq!(m.datafeed_latencies.len(), 100);
    assert_eq!(m.datafeed_latencies[0], 51);
    // mean of 51..=150 is 100.5, rounded down
    assert_eq!(m.avg_datafeed, 100);
    // index 99 of 100 sorted values
    assert_eq!(m.p99_datafeed, 150);
    assert_eq!(m.last_execution, None);
}
