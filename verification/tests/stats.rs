use tcp_ping::stats::{RunningStats, Summary};

#[test]
fn starts_with_sentinels() {
    let stats = RunningStats::new();
    assert_eq!(stats, RunningStats { min: u64::MAX, max: 0, sum: 0, count: 0 });
    assert_eq!(stats.summary(), None);
}

#[test]
fn records_least_greatest_and_total() {
    let mut stats = RunningStats::new();
    for latency in [300u64, 100, 200, 500, 400] {
        stats.record(latency);
    }
    assert_eq!(stats, RunningStats { min: 100, max: 500, sum: 1500, count: 5 });
    assert_eq!(stats.summary(), Some(Summary { min: 100, avg: 300, max: 500 }));
}

#[test]
fn equal_latencies_replace_nothing() {
    let mut stats = RunningStats::new();
    stats.record(7);
    stats.record(7);
    assert_eq!(stats, RunningStats { min: 7, max: 7, sum: 14, count: 2 });
}

#[test]
fn extreme_latencies() {
    let mut stats = RunningStats::new();
    stats.record(u64::MAX);
    assert_eq!(stats, RunningStats { min: u64::MAX, max: u64::MAX, sum: u64::MAX as u128, count: 1 });
    stats.record(0);
    assert_eq!(stats, RunningStats { min: 0, max: u64::MAX, sum: u64::MAX as u128, count: 2 });
    stats.record(u64::MAX);
    assert_eq!(stats.sum, 2 * (u64::MAX as u128));
    assert_eq!(
        stats.summary(),
        Some(Summary { min: 0, avg: ((2 * (u64::MAX as u128)) / 3) as u64, max: u64::MAX })
    );
}

#[test]
fn mean_is_rounded_down() {
    let mut stats = RunningStats::new();
    stats.record(1);
    stats.record(2);
    assert_eq!(stats.summary(), Some(Summary { min: 1, avg: 1, max: 2 }));
    stats.record(2);
    stats.record(2);
    assert_eq!(stats.summary(), Some(Summary { min: 1, avg: 1, max: 2 }));
    stats.record(3);
    assert_eq!(stats.summary(), Some(Summary { min: 1, avg: 2, max: 3 }));
}

#[test]
fn mean_lies_between_least_and_greatest() {
    let mut stats = RunningStats::new();
    let mut seed: u64 = 0x9e37_79b9_7f4a_7c15;
    for _ in 0..1000 {
        seed = seed.wrapping_mul(6364136223846793005).wrapping_add(1442695040888963407);
        stats.record(seed >> 20);
        let summary = stats.summary().unwrap();
        assert!(summary.min <= summary.avg && summary.avg <= summary.max);
    }
    assert_eq!(stats.count, 1000);
}
