[package]
name = "preflight"
version = "0.1.0"
edition = "2021"
publish = false

[dependencies]
similar = "*"
syntect = "*"
serde = { version = "*", features = ["derive"] }
serde_json = "*"
tokio = { version = "*", features = ["full"] }
axum = { version = "*", features = ["ws"] }
chrono = "*"
uuid = { version = "*", features = ["v4"] }
clap = { version = "*", features = ["derive", "env"] }
reqwest = { version = "*", features = ["json"] }
tokio-tungstenite = "*"
futures-util = "*"
urlencoding = "*"
rmcp = { version = "*", features = ["server", "transport-io"] }
