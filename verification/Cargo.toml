[package]
name = "convex_cluster"
version = "0.1.0"
edition = "2021"
publish = false

[dependencies]
anyhow = "1"
async-nats = "*"
async-trait = "0.1"
base64 = "0.13"
bytes = "1"
futures = "0.3"
hex = "0.4"
parking_lot = "0.12"
prost = "0.13"
protobuf = "2"
raft = "0.7"
raft-engine = "0.4"
rustls = { version = "0.23", default-features = false, features = ["ring", "std"] }
serde = { version = "1", features = ["derive"] }
serde_json = "1"
sha2 = "0.10"
slog = "2"
slog-stdlog = "4"
thiserror = "1"
tokio = { version = "1", features = ["full"] }
tonic = "0.12"
tracing = "0.1"

[dev-dependencies]
tempfile = "3"
