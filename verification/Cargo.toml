[package]
name = "ordust"
version = "0.1.0"
edition = "2021"
publish = false

[dependencies]
slab = "0.4"
thiserror = "2"
serde = { version = "1", features = ["derive"] }
serde_json = "1"
tokio = { version = "1", features = ["full"] }
tokio-tungstenite = "*"
futures-util = "0.3"
url = "2"
crossterm = { version = "*", features = ["event-stream"] }
ratatui = "*"
