[package]
name = "bundle_reload"
version = "0.1.0"
edition = "2021"
publish = false

[dependencies]
arc-swap = "1"
sha2 = "0.10"
thiserror = "2"
tokio = { version = "1", features = ["fs", "macros", "rt", "sync", "time"] }
tracing = "0.1"
