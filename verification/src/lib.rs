//! Verified building blocks of a layer-sharded inference stack.

pub mod arith;
pub mod grid;
pub mod kv;
pub mod metric;
pub mod rebalancer;
pub mod text;
