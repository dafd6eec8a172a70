[package]
name = "central_server"
version = "0.1.0"
edition = "2021"
publish = false

[dependencies]
anyhow = "*"
env_logger = "*"
futures-util = "*"
log = "*"
tokio = { version = "*", features = ["rt-multi-thread", "macros", "net", "io-util", "sync", "time"] }
tokio-stream = { version = "*", features = ["sync"] }
tokio-tungstenite = "*"

[dev-dependencies]
serde_json = "*"
