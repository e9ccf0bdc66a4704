[package]
name = "larql"
version = "0.1.0"
edition = "2021"
publish = false

[dependencies]
ndarray = "0.16"
tokio = { version = "1", default-features = false, features = ["sync", "rt", "time"] }
tonic = { version = "0.12", default-features = false }
tracing = "0.1"
