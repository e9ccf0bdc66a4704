use larql::metric::Metric;
use larql::rebalancer::{scans, RebalancerConfig, Scan, Span};
use std::time::Duration;

fn metric(x: f32) -> Metric {
    Metric { bits: x.to_bits() }
}

fn duration(s: Span) -> Duration {
    Duration::new(s.secs, s.nanos)
}

#[test]
fn rebalancer_config_defaults() {
    let cfg = RebalancerConfig::default();
    assert_eq!(duration(cfg.check_interval), Duration::from_secs(30));
    assert_eq!(cfg.imbalance_threshold, metric(2.0));
    assert_eq!(duration(cfg.stale_heartbeat_timeout), Duration::from_secs(25));
}

#[test]
fn from_cli_derives_sustained_window_from_interval() {
    let cfg = RebalancerConfig::from_cli(15, metric(2.5));
    assert_eq!(duration(cfg.check_interval), Duration::from_secs(15));
    assert_eq!(cfg.imbalance_threshold, metric(2.5));
    assert_eq!(duration(cfg.sustained_window), Duration::from_secs(30));
    assert_eq!(duration(cfg.stale_heartbeat_timeout), Duration::from_secs(25));
}

#[test]
fn with_hot_shard_threshold_filters_non_positive() {
    let cfg = RebalancerConfig::default().with_hot_shard_threshold(Some(metric(10.0)));
    assert_eq!(cfg.hot_shard_rps_threshold, Some(metric(10.0)));

    let cfg = RebalancerConfig::default().with_hot_shard_threshold(Some(metric(0.0)));
    assert_eq!(cfg.hot_shard_rps_threshold, None);
    let cfg = RebalancerConfig::default().with_hot_shard_threshold(Some(metric(-5.0)));
    assert_eq!(cfg.hot_shard_rps_threshold, None);
    let cfg = RebalancerConfig::default().with_hot_shard_threshold(None);
    assert_eq!(cfg.hot_shard_rps_threshold, None);
}

#[test]
fn a_threshold_that_is_not_a_number_turns_the_scan_off() {
    let cfg = RebalancerConfig::default().with_hot_shard_threshold(Some(metric(f32::NAN)));
    assert_eq!(cfg.hot_shard_rps_threshold, None);
    let cfg = RebalancerConfig::default().with_hot_shard_threshold(Some(metric(f32::INFINITY)));
    assert_eq!(cfg.hot_shard_rps_threshold, Some(metric(f32::INFINITY)));
}

#[test]
fn defaults_are_complete() {
    let cfg = RebalancerConfig::default();
    assert_eq!(duration(cfg.sustained_window), Duration::from_secs(60));
    assert_eq!(cfg.hot_shard_rps_threshold, None);
}

#[test]
fn elevation_comes_before_the_replica_scans() {
    let cfg = RebalancerConfig::default();
    let silence = Scan::EvictStale(Span::from_secs(25));
    assert_eq!(
        scans(&cfg),
        vec![silence, Scan::UnderReplication, Scan::OverReplication, Scan::Imbalance]
    );
    let cfg = cfg.with_hot_shard_threshold(Some(metric(1.0)));
    assert_eq!(
        scans(&cfg),
        vec![
            silence,
            Scan::HotShards(metric(1.0)),
            Scan::UnderReplication,
            Scan::OverReplication,
            Scan::Imbalance
        ]
    );
}
