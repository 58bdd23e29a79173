[package]
name = "in_memory_cache"
version = "0.1.0"
edition = "2021"
publish = false

[dependencies]
bytes = "1"
fastrand = "2"
parking_lot = "0.12"
thiserror = "1"
tikv-jemallocator = "0.6"
tokio = { version = "1", features = ["full"] }
tracing = "0.1"
tracing-subscriber = { version = "0.3", features = ["env-filter"] }
