//! The grid: which servers hold which layers, where a request goes, and how
//! replicas are kept up.

pub mod coverage;
pub mod elevation;
pub mod entry;
pub mod laws;
pub mod protocol;
pub mod ranges;
pub mod replication;
pub mod routing;
pub mod state;
pub mod table;
