[package]
name = "fide_backend"
version = "0.1.0"
edition = "2021"
publish = false

[dependencies]
walkdir = "2"
uuid = { version = "1", features = ["v4"] }
serde = { version = "1", features = ["derive"] }
serde_json = "1"
tokio = { version = "1", features = ["full"] }
axum = "*"
tower-http = { version = "*", features = ["cors"] }
tracing = "*"
tracing-subscriber = { version = "*", features = ["env-filter"] }
futures = "*"
tokio-tungstenite = "*"
