[package]
name = "capture_decode"
version = "0.1.0"
edition = "2021"
publish = false

[dependencies]
csv = "1"
encoding_rs = "0.8"
regex = "1"
serde = { version = "1", features = ["derive"] }
hound = "3"
log = "0.4"
env_logger = { version = "0.11", default-features = false }
tokio = { version = "1", features = ["rt-multi-thread", "net", "sync", "time", "macros"] }
futures-util = "0.3"
tokio-tungstenite = "*"
plotly = { version = "*", default-features = false }
tauri = { version = "2", default-features = false }
