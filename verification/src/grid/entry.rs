//! Servers that the grid knows.

use std::collections::HashMap;
use vstd::prelude::*;

use crate::grid::protocol::ServerChannel;
use crate::grid::ranges::RangeKey;
use crate::metric::Metric;
use crate::rebalancer::Span;

verus! {

/// A server that serves a range of layers.
pub struct ServerEntry {
    pub server_id: String,
    pub listen_url: String,
    pub model_id: String,
    /// The first layer that the server holds.
    pub layer_start: u32,
    /// The last layer that the server holds.
    pub layer_end: u32,
    pub vindex_hash: String,
    pub cpu_pct: Metric,
    pub ram_used: u64,
    pub requests_in_flight: u32,
    /// When the server was last heard of, on the clock of the router.
    pub last_seen: Span,
    /// Average and 99th percentile latency in milliseconds, by layer.
    pub layer_latencies: HashMap<u32, (Metric, Metric)>,
    pub req_per_sec: Metric,
    /// Round-trip time of the last probe, where there was one.
    pub rtt_ms: Option<Metric>,
}

/// A server that holds no layers yet and waits for an assignment.
pub struct AvailableEntry {
    pub server_id: String,
    pub sender: ServerChannel,
    pub ram_bytes: u64,
    pub disk_bytes: u64,
    pub store_path: String,
}

impl ServerEntry {
    /// Whether the server holds a layer.
    pub open spec fn covers(&self, layer: u32) -> bool {
        self.layer_start <= layer <= self.layer_end
    }

    /// Whether the server serves a model; every server serves an unnamed one.
    pub open spec fn serves(&self, model: Option<Seq<char>>) -> bool {
        match model {
            Some(m) => self.model_id@ == m,
            None => true,
        }
    }

    /// The range that the server holds.
    pub open spec fn range(&self) -> RangeKey {
        (self.model_id@, self.layer_start, self.layer_end)
    }

    /// Whether the server could hand out a range: it holds all of it.
    pub open spec fn originates(&self, model_id: Seq<char>, start: u32, end: u32) -> bool {
        self.model_id@ == model_id && self.layer_start <= start && self.layer_end >= end
    }
}

/// A model that a request names, if it names one.
pub open spec fn named(model: Option<&String>) -> Option<Seq<char>> {
    match model {
        Some(m) => Some(m@),
        None => None,
    }
}

impl ServerEntry {
    /// Whether the server serves a model; every server serves an unnamed one.
    pub fn is_serving(&self, model: Option<&String>) -> (b: bool)
        ensures
            b == self.serves(named(model)),
    {
        match model {
            Some(m) => self.model_id == *m,
            None => true,
        }
    }
}

} // verus!
