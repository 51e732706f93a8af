[package]
name = "fast_merkle"
version = "0.1.0"
edition = "2021"
publish = false

[dependencies]
blake3 = "=1.8.7"
sled = "=0.34.7"
warp = { version = "=0.4.3", features = ["multipart", "server"] }
tokio = { version = "=1.53.2", features = ["rt-multi-thread", "fs", "io-util"] }
tokio-util = { version = "=0.7.19", features = ["io"] }
futures = "=0.3.34"
serde_json = "=1.0.151"
