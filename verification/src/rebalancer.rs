//! Settings and order of work of the rebalancer.

use vstd::prelude::*;

use crate::metric::Metric;

verus! {

/// A length of time.
#[derive(Clone, Copy, PartialEq, Eq, Structural, Debug)]
pub struct Span {
    pub secs: u64,
    pub nanos: u32,
}

impl Span {
    /// So many seconds.
    pub fn from_secs(secs: u64) -> (s: Span)
        ensures
            s == (Span { secs, nanos: 0 }),
    {
        Span { secs, nanos: 0 }
    }
}

/// Settings of the rebalancer.
#[derive(Clone, Copy, PartialEq, Eq, Structural, Debug)]
pub struct RebalancerConfig {
    /// How often the scans run.
    pub check_interval: Span,
    /// The ratio of the slowest to the fastest replica of a layer that counts
    /// as an imbalance.
    pub imbalance_threshold: Metric,
    /// How long an imbalance must last before anything is done.
    pub sustained_window: Span,
    /// How long a server may be silent before it is dropped.
    pub stale_heartbeat_timeout: Span,
    /// Requests per second above which a range is hot; `None` turns that scan
    /// off.
    pub hot_shard_rps_threshold: Option<Metric>,
}

/// The number two.
pub open spec fn two() -> Metric {
    Metric { bits: 0x4000_0000 }
}

/// The number zero.
pub open spec fn zero() -> Metric {
    Metric { bits: 0 }
}

impl Default for RebalancerConfig {
    /// A scan every half minute, an imbalance at a ratio of two that lasts a
    /// minute, silence of twenty-five seconds, and no hot-range scan.
    fn default() -> (c: Self)
        ensures
            c == (RebalancerConfig {
                check_interval: Span { secs: 30, nanos: 0 },
                imbalance_threshold: two(),
                sustained_window: Span { secs: 60, nanos: 0 },
                stale_heartbeat_timeout: Span { secs: 25, nanos: 0 },
                hot_shard_rps_threshold: None,
            }),
    {
        RebalancerConfig {
            check_interval: Span::from_secs(30),
            imbalance_threshold: Metric { bits: 0x4000_0000 },
            sustained_window: Span::from_secs(60),
            stale_heartbeat_timeout: Span::from_secs(25),
            hot_shard_rps_threshold: None,
        }
    }
}

impl RebalancerConfig {
    /// Settings for a scan interval and an imbalance ratio. An imbalance must
    /// last two intervals.
    pub fn from_cli(interval_secs: u64, threshold: Metric) -> (c: Self)
        requires
            interval_secs * 2 <= u64::MAX,
        ensures
            c == (RebalancerConfig {
                check_interval: Span { secs: interval_secs, nanos: 0 },
                imbalance_threshold: threshold,
                sustained_window: Span { secs: (interval_secs * 2) as u64, nanos: 0 },
                stale_heartbeat_timeout: Span { secs: 25, nanos: 0 },
                hot_shard_rps_threshold: None,
            }),
    {
        RebalancerConfig {
            check_interval: Span::from_secs(interval_secs),
            imbalance_threshold: threshold,
            sustained_window: Span::from_secs(interval_secs * 2),
            stale_heartbeat_timeout: Span::from_secs(25),
            hot_shard_rps_threshold: None,
        }
    }

    /// The same settings with another hot-range threshold. A threshold that is
    /// not above zero turns the scan off.
    pub fn with_hot_shard_threshold(self, threshold: Option<Metric>) -> (c: Self)
        ensures
            c == (RebalancerConfig {
                hot_shard_rps_threshold: match threshold {
                    Some(t) if zero().below(t) => Some(t),
                    _ => None,
                },
                ..self
            }),
    {
        let kept: Option<Metric> = match threshold {
            Some(t) => {
                if t.exceeds(Metric { bits: 0 }) {
                    Some(t)
                } else {
                    None
                }
            },
            None => None,
        };
        RebalancerConfig { hot_shard_rps_threshold: kept, ..self }
    }
}

/// One scan of the rebalancer.
#[derive(Clone, Copy, PartialEq, Eq, Structural, Debug)]
pub enum Scan {
    /// Drop servers that have been silent for so long.
    EvictStale(Span),
    /// Bring the elevated ranges in line with the hot ones.
    HotShards(Metric),
    /// Assign spares to ranges that lack replicas.
    UnderReplication,
    /// Drop replicas that are too many.
    OverReplication,
    /// Look for a replica that stays slower than the others.
    Imbalance,
}

/// The scans of one round, in order. Elevation comes before the replica scans,
/// so that they see a range that just became hot, or just cooled, in the same
/// round.
pub open spec fn round_of(cfg: RebalancerConfig) -> Seq<Scan> {
    match cfg.hot_shard_rps_threshold {
        Some(t) => seq![
            Scan::EvictStale(cfg.stale_heartbeat_timeout),
            Scan::HotShards(t),
            Scan::UnderReplication,
            Scan::OverReplication,
            Scan::Imbalance,
        ],
        None => seq![
            Scan::EvictStale(cfg.stale_heartbeat_timeout),
            Scan::UnderReplication,
            Scan::OverReplication,
            Scan::Imbalance,
        ],
    }
}

/// The scans of one round, in order.
pub fn scans(cfg: &RebalancerConfig) -> (v: Vec<Scan>)
    ensures
        v@ == round_of(*cfg),
{
    let mut v: Vec<Scan> = Vec::new();
    v.push(Scan::EvictStale(cfg.stale_heartbeat_timeout));
    if let Some(t) = cfg.hot_shard_rps_threshold {
        v.push(Scan::HotShards(t));
    }
    v.push(Scan::UnderReplication);
    v.push(Scan::OverReplication);
    v.push(Scan::Imbalance);
    assert(v@ =~= round_of(*cfg));
    v
}

/// A hot-range threshold counts as above zero exactly where it is a positive
/// number, infinity included. Negative zero does not count.
pub proof fn law_only_positive_thresholds_count(t: Metric)
    ensures
        zero().below(t) == (0 < t.bits <= 0x7f80_0000),
{
    crate::metric::law_bits_give_the_order(zero(), t);
    crate::metric::law_bits_give_the_order(t, zero());
}

/// The number two has the exponent of one plus one, and no fraction.
pub proof fn law_two_is_twice_one()
    ensures
        two().bits == 0x3f80_0000 + 0x80_0000,
{
}

/// Whether a round runs a scan.
pub open spec fn runs(cfg: RebalancerConfig, scan: Scan) -> bool {
    exists|i: int| 0 <= i < round_of(cfg).len() && #[trigger] round_of(cfg)[i] == scan
}

/// Every round first drops silent servers, for which it uses the timeout of the
/// settings, and looks for an imbalance last. In between it looks for missing
/// replicas and then for needless ones. It looks for hot ranges exactly when
/// there is a threshold, with that threshold, and before both replica scans.
/// Nothing runs twice.
pub proof fn law_round_is_in_order(cfg: RebalancerConfig)
    ensures
        round_of(cfg).first() == Scan::EvictStale(cfg.stale_heartbeat_timeout),
        round_of(cfg).last() == Scan::Imbalance,
        forall|t: Metric| #[trigger]
            runs(cfg, Scan::HotShards(t)) == (cfg.hot_shard_rps_threshold == Some(t)),
        runs(cfg, Scan::UnderReplication),
        runs(cfg, Scan::OverReplication),
        forall|i: int, j: int|
            {
                &&& 0 <= i < round_of(cfg).len()
                &&& 0 <= j < round_of(cfg).len()
                &&& #[trigger] round_of(cfg)[i] == Scan::UnderReplication
                &&& #[trigger] round_of(cfg)[j] == Scan::OverReplication
            } ==> i < j,
        forall|i: int, j: int|
            {
                &&& 0 <= i < round_of(cfg).len()
                &&& 0 <= j < round_of(cfg).len()
                &&& (#[trigger] round_of(cfg)[i]) is HotShards
                &&& #[trigger] round_of(cfg)[j] == Scan::UnderReplication
            } ==> i < j,
        forall|i: int, j: int|
            0 <= i < j < round_of(cfg).len() ==> #[trigger] round_of(cfg)[i]
                != #[trigger] round_of(cfg)[j],
{
    let round = round_of(cfg);
    match cfg.hot_shard_rps_threshold {
        Some(t) => {
            assert(round[1] == Scan::HotShards(t));
            assert(round[2] == Scan::UnderReplication);
            assert(round[3] == Scan::OverReplication);
        },
        None => {
            assert(round[1] == Scan::UnderReplication);
            assert(round[2] == Scan::OverReplication);
        },
    }
}

} // verus!
