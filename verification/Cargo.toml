[package]
name = "chalk-metrics"
version = "0.1.0"
edition = "2021"
publish = false

[dependencies]
hashbrown = "0.14"
parking_lot = "0.12"
serde = { version = "1", features = ["derive"] }
serde_json = "1"
tokio = { version = "1", features = ["rt", "rt-multi-thread", "time", "sync", "macros"] }
async-trait = "0.1"
libc = "0.2"
