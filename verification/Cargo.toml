[package]
name = "engula"
version = "0.1.0"
edition = "2021"
publish = false

[dependencies]
async-trait = "0.1"
bytes = "1"
crc32fast = "1"
futures = "0.3"
hashbrown = { version = "0.12", features = ["raw"] }
rand = "0.8"
serde = { version = "1", features = ["derive"] }
serde_json = "1"
tokio = { version = "1", features = ["rt", "sync", "time", "io-util", "fs"] }
tokio-stream = "0.1"
tonic = "0.7"
tracing = "0.1"
