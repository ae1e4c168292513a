[package]
name = "sfu"
version = "0.1.0"
edition = "2021"
publish = false

[dependencies]
arc-swap = "1"
async-nats = "*"
bytes = "1"
dashmap = "6"
futures = "0.3"
prometheus = { version = "0.14", default-features = false }
tokio = { version = "1", features = ["macros", "rt", "sync", "time"] }
tracing = "0.1"
