[package]
name = "cachex"
version = "0.1.0"
edition = "2021"
publish = false

[dependencies]
tokio = { version = "1", features = ["full"] }
serde = { version = "1", features = ["derive"] }
serde_json = "1"
toml = "0.8"
bincode = "1"
axum = "0.8"
futures-util = "0.3"
tokio-stream = { version = "0.1", features = ["sync"] }
