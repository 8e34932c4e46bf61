use rgctl_analysis::centrality_approx::{
    adaptive_hyperball_rounds, hash_node_id, hll_precision_for, sample_pivot_indices, splitmix64, CentralityApproxStats,
    HyperBallHarmonic, HyperLogLog, LARGE_GRAPH_HYPERBALL_ROUNDS,
};

#[test]
fn adaptive_hyperball_rounds_gating() {
    assert_eq!(adaptive_hyperball_rounds(100, 16), 16);
    assert_eq!(adaptive_hyperball_rounds(600_000, 16), LARGE_GRAPH_HYPERBALL_ROUNDS);
    assert_eq!(HyperBallHarmonic::effective_rounds(600_000, 16), LARGE_GRAPH_HYPERBALL_ROUNDS);
}

#[test]
fn sample_pivot_indices_fisher_yates_and_full() {
    let full = sample_pivot_indices(10, 10, 1);
    assert_eq!(full.len(), 10);
    let mut sorted = full.clone();
    sorted.sort_unstable();
    assert_eq!(sorted, (0..10).collect::<Vec<_>>());

    let half = sample_pivot_indices(10, 6, 42);
    assert_eq!(half.len(), 6);
    let mut uniq = half.clone();
    uniq.sort_unstable();
    uniq.dedup();
    assert_eq!(uniq.len(), 6);
}

#[test]
fn rejection_sampling_picks_distinct_pivots() {
    let picks = sample_pivot_indices(1000, 20, 7);
    assert_eq!(picks.len(), 20);
    let mut uniq = picks.clone();
    uniq.sort_unstable();
    uniq.dedup();
    assert_eq!(uniq.len(), 20);
    assert!(picks.iter().all(|&p| p < 1000));
    assert_eq!(sample_pivot_indices(1000, 20, 7), picks);
}

#[test]
fn full_sample_is_identity_order() {
    assert_eq!(sample_pivot_indices(4, 9, 3), vec![0, 1, 2, 3]);
    assert!(sample_pivot_indices(0, 0, 3).is_empty());
}

#[test]
fn rounds_are_at_least_one() {
    assert_eq!(adaptive_hyperball_rounds(10, 0), 1);
    assert_eq!(adaptive_hyperball_rounds(600_000, 0), 1);
    assert_eq!(adaptive_hyperball_rounds(600_000, 4), 4);
}

#[test]
fn precision_shrinks_with_graph_size() {
    assert_eq!(hll_precision_for(100), 14);
    assert_eq!(hll_precision_for(8192), 14);
    assert_eq!(hll_precision_for(8193), 12);
    assert_eq!(hll_precision_for(100_000), 12);
    assert_eq!(hll_precision_for(100_001), 10);
}

#[test]
fn splitmix_known_values() {
    // Reference outputs of splitmix64.
    assert_eq!(splitmix64(0), 0xE220_A839_7B1D_CDAF);
    assert_eq!(splitmix64(1), 0x910A_2DEC_8902_5CC1);
    assert_eq!(hash_node_id(0), splitmix64(0x9E37_79B9_7F4A_7C15));
}

#[test]
fn hyperloglog_registers_merge_and_reset() {
    let mut a = HyperLogLog::new(4);
    let mut b = HyperLogLog::new(4);
    assert_eq!(a.register_count(), 16);
    assert!(a.registers().iter().all(|&r| r == 0));
    for i in 0..100 {
        a.add(i);
    }
    for i in 50..150 {
        b.add(i);
    }
    assert!(a.registers().iter().all(|&r| r <= 61));
    assert!(a.registers().iter().any(|&r| r >= 2));
    let mut merged = HyperLogLog::new(4);
    merged.merge(&a);
    merged.merge(&b);
    for i in 0..16 {
        assert_eq!(merged.registers()[i], a.registers()[i].max(b.registers()[i]));
    }
    merged.reset();
    assert!(merged.registers().iter().all(|&r| r == 0));
    assert_eq!(merged.register_count(), 16);
}

#[test]
fn timed_total_sums_phases() {
    let stats = CentralityApproxStats {
        flat_index_ms: 1,
        degrees_ms: 2,
        pagerank_ms: 3,
        betweenness_ms: 4,
        harmonic_ms: 5,
        columnar_fill_ms: 6,
        top_k_ms: 7,
        ..Default::default()
    };
    assert_eq!(stats.timed_total_ms(), 28);
}

fn estimate(registers: &[u8]) -> f64 {
    let m = registers.len() as f64;
    let sum: f64 = registers.iter().map(|&rho| 2f64.powi(-i32::from(rho))).sum();
    let alpha = match registers.len() {
        16 => 0.673,
        32 => 0.697,
        64 => 0.709,
        _ if registers.len() >= 128 => 0.7213 / (1.0 + 1.079 / m),
        _ => 0.75,
    };
    let raw = alpha * m * m / sum;
    if raw <= 2.5 * m {
        let zeros = registers.iter().filter(|&&r| r == 0).count() as f64;
        if zeros > 0.0 {
            return m * (m / zeros).ln();
        }
    }
    raw
}

#[test]
fn hyperloglog_merge_estimates_union() {
    let mut a = HyperLogLog::new(12);
    let mut b = HyperLogLog::new(12);
    for i in 0..100 {
        a.add(i);
    }
    for i in 50..150 {
        b.add(i);
    }
    let mut merged = HyperLogLog::new(12);
    merged.merge(&a);
    merged.merge(&b);
    let est = estimate(merged.registers());
    assert!((120.0..180.0).contains(&est), "expected ~150 distinct, got {est}");
}

#[test]
fn hyperloglog_estimates_a_million_within_five_percent() {
    let mut h = HyperLogLog::new(14);
    for i in 0..1_000_000u64 {
        h.add(i);
    }
    let est = estimate(h.registers());
    assert!((est - 1_000_000.0).abs() <= 0.05 * 1_000_000.0, "got {est}");
}
