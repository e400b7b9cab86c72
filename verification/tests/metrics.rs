use matchx::metrics::LatencySummary;

/// The percentile by the formula on floating-point numbers.
fn by_formula(sorted: &[u64], p: f64) -> u64 {
    let n = sorted.len();
    let rank = (p * n as f64).ceil() as usize;
    sorted[rank.saturating_sub(1).min(n - 1)]
}

#[test]
fn no_samples_give_zeros() {
    assert_eq!(LatencySummary::from_samples(&[]), LatencySummary::default());
    assert_eq!(
        LatencySummary::default(),
        LatencySummary { p50: 0, p95: 0, p99: 0, p999: 0 }
    );
}

#[test]
fn percentiles_of_a_thousand_samples() {
    let mut samples: Vec<u64> = (1..=1000).collect();
    samples.reverse();
    assert_eq!(
        LatencySummary::from_samples(&samples),
        LatencySummary { p50: 500, p95: 950, p99: 990, p999: 999 }
    );
    // The samples are left as they were.
    assert_eq!(samples[0], 1000);
}

#[test]
fn percentiles_of_few_samples() {
    assert_eq!(
        LatencySummary::from_samples(&[7]),
        LatencySummary { p50: 7, p95: 7, p99: 7, p999: 7 }
    );
    assert_eq!(
        LatencySummary::from_samples(&[30, 10, 20]),
        LatencySummary { p50: 20, p95: 30, p99: 30, p999: 30 }
    );
    assert_eq!(
        LatencySummary::from_samples(&[4, 1, 3, 2]),
        LatencySummary { p50: 2, p95: 4, p99: 4, p999: 4 }
    );
}

#[test]
fn percentiles_agree_with_the_formula() {
    for n in 1..2500u64 {
        let sorted: Vec<u64> = (0..n).map(|i| 3 * i).collect();
        let summary = LatencySummary::from_samples(&sorted);
        assert_eq!(summary.p50, by_formula(&sorted, 0.50));
        assert_eq!(summary.p95, by_formula(&sorted, 0.95));
        assert_eq!(summary.p99, by_formula(&sorted, 0.99));
        assert_eq!(summary.p999, by_formula(&sorted, 0.999));
    }
}
