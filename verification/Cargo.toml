[package]
name = "minkowski_kv"
version = "0.1.0"
edition = "2021"
publish = false

[dependencies]
anyhow = "1"
blake3 = { version = "1", features = ["pure"] }
crossterm = { version = "*", features = ["event-stream"] }
dashmap = "*"
futures = "0.3"
petgraph = "*"
quinn = "0.11"
ratatui = "*"
rcgen = "0.13"
rustls = { version = "0.23", default-features = false, features = ["ring", "std"] }
tokio = { version = "1", features = ["full"] }
uuid = { version = "1", features = ["v4"] }
