[package]
name = "ollamamq"
version = "0.1.0"
edition = "2021"
publish = false

[dependencies]
axum = "*"
bytes = "*"
clap = { version = "*", features = ["derive"] }
crossterm = "*"
futures-util = "*"
ratatui = "*"
reqwest = { version = "*", default-features = false, features = ["stream"] }
serde = { version = "*", features = ["derive"] }
serde_json = "*"
tokio = { version = "*", features = ["full"] }
tokio-stream = "*"
tracing = "*"
tracing-appender = "*"
tracing-subscriber = { version = "*", features = ["env-filter"] }
