[package]
name = "merkle_tree"
version = "0.1.0"
edition = "2021"
publish = false

[dependencies]
anyhow = "1"
axum = { version = "0.6", features = ["multipart"] }
clap = { version = "4", features = ["derive"] }
futures = "0.3"
reqwest = { version = "0.11", default-features = false, features = ["multipart", "stream"] }
ring = "0.17"
serde = { version = "1", features = ["derive"] }
serde_json = "1"
tokio = { version = "1", features = ["full"] }
tokio-util = { version = "0.7", features = ["io", "codec"] }
tracing = "0.1"
tracing-subscriber = "0.3"
