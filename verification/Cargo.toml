[package]
name = "movement_node"
version = "0.1.0"
edition = "2021"
publish = false

[dependencies]
sha2 = "=0.10.9"
zstd = "=0.13.3"
bcs = "=0.1.6"
serde_json = "=1.0.154"
alloy = { version = "=2.5.0", default-features = false }
celestia-types = "*"
tokio = { version = "=1.54.1", features = ["rt", "rt-multi-thread", "time", "sync", "macros"] }
futures = "=0.3.34"
async-channel = "=2.5.0"
anyhow = "=1.0.104"
tracing = "=0.1.44"
