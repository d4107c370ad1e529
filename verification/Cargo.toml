[package]
name = "kiteticker_async_manager"
version = "0.1.0"
edition = "2021"
publish = false

[dependencies]
serde_json = "*"
serde = { version = "*", features = ["derive"] }
serde_repr = "*"
serde_with = "*"
chrono = "*"
tokio = { version = "*", features = ["rt-multi-thread", "macros", "sync", "time", "net"] }
tokio-tungstenite = "*"
futures-util = "*"
url = "*"
bytes = "*"
log = "*"
