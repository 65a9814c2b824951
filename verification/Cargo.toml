[package]
name = "ailets"
version = "0.1.0"
edition = "2021"
publish = false

[dependencies]
base64 = "0.22"
serde_json = "1"
embedded-io = "0.6"
embedded-io-async = "0.6"
tokio = { version = "1", features = ["rt-multi-thread", "macros", "sync", "time"] }
parking_lot = "0.12"
thiserror = "2"
crossbeam = "0.8"
log = "0.4"
tracing = "0.1"
env_logger = "0.11"
rustc-hash = "2"
lazy_static = "1"
