[package]
name = "brz_net"
version = "0.1.0"
edition = "2021"
publish = false

[dependencies]
arc-swap = "1"
atomic-waker = "1"
bytes = "1"
parking_lot = "0.12"
thiserror = "2"
tokio = { version = "1", features = ["io-util", "macros", "net", "rt", "rt-multi-thread", "sync", "time"] }
tracing = "0.1"
