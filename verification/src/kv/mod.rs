//! Key/value caches: matrices, handles, backends and the engine.

pub mod cpu;
pub mod decode_state;
pub mod delegate;
pub mod engine;
pub mod handle;
pub mod laws;
pub mod matrix;
pub mod metal;
