use reth_accel::icicle_stats::IcicleCallKind;
use reth_accel::icicle_stats::IcicleStats;
use reth_accel::icicle_stats::record_icicle_call;

const MINUTE: u128 = 60_000_000_000;

#[test]
fn summary_comes_after_a_minute() {
    let mut stats = IcicleStats::new();
    assert!(record_icicle_call(&mut stats, IcicleCallKind::Hash, 2_500_000, 10).is_none());
    assert!(record_icicle_call(&mut stats, IcicleCallKind::Bn254, 1_000_000, MINUTE - 1).is_none());
    let summary = record_icicle_call(&mut stats, IcicleCallKind::Hash, 2_500_000, MINUTE).unwrap();
    assert_eq!(summary.interval_ms, 60_000);
    assert_eq!(summary.total_calls, 3);
    assert_eq!(summary.total_ms, 6);
    assert_eq!(summary.hash_calls, 2);
    assert_eq!(summary.hash_ms, 5);
    assert_eq!(summary.bn254_calls, 1);
    assert_eq!(summary.bn254_ms, 1);
    assert!(record_icicle_call(&mut stats, IcicleCallKind::Hash, 1, MINUTE + 5).is_none());
    let later = record_icicle_call(&mut stats, IcicleCallKind::Hash, 1, 2 * MINUTE).unwrap();
    assert_eq!(later.total_calls, 2);
    assert_eq!(later.bn254_calls, 0);
    assert_eq!(later.total_ms, 0);
}

#[test]
fn calls_add_up() {
    let mut stats = IcicleStats::new();
    for i in 0..10u128 {
        let kind = if i % 3 == 0 { IcicleCallKind::Bn254 } else { IcicleCallKind::Hash };
        record_icicle_call(&mut stats, kind, i, i);
    }
    assert_eq!(stats.totals.total_calls, 10);
    assert_eq!(stats.totals.hash_calls + stats.totals.bn254_calls, 10);
    assert_eq!(stats.totals.total_ns, 45);
    assert_eq!(stats.totals.hash_ns + stats.totals.bn254_ns, 45);
}

#[test]
fn long_times_are_cut_off() {
    let mut stats = IcicleStats::new();
    record_icicle_call(&mut stats, IcicleCallKind::Hash, u128::MAX, u128::MAX);
    assert_eq!(stats.totals.total_ns, u64::MAX);
    assert_eq!(stats.last_log_ns, u64::MAX);
    record_icicle_call(&mut stats, IcicleCallKind::Hash, 2, 0);
    assert_eq!(stats.totals.total_ns, 1);
}

#[test]
fn overflowing_count_gives_no_summary() {
    let mut stats = IcicleStats::new();
    stats.totals.total_calls = u64::MAX;
    stats.snapshot.total_calls = u64::MAX;
    assert!(record_icicle_call(&mut stats, IcicleCallKind::Hash, 1, MINUTE).is_none());
    assert_eq!(stats.totals.total_calls, 0);
    assert_eq!(stats.last_log_ns, MINUTE as u64);
    assert_eq!(stats.snapshot.total_calls, 0);
}
