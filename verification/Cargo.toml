[package]
name = "kiro-rs"
version = "0.1.0"
edition = "2021"
publish = false

[dependencies]
chrono = { version = "0.4", features = ["serde"] }
uuid = { version = "1", features = ["v4"] }
serde = { version = "1", features = ["derive"] }
serde_json = "1"
axum = "0.8"
tokio = { version = "1", features = ["rt-multi-thread", "macros", "time", "sync"] }
tower-http = { version = "0.6", features = ["cors"] }
parking_lot = "0.12"
anyhow = "1"
tracing = "0.1"
futures = "0.3"
