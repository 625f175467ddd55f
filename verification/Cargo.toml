[package]
name = "segment_store"
version = "0.1.0"
edition = "2021"
publish = false

[dependencies]
axum = "0.8"
axum-metrics = "*"
hyper = { version = "1", features = ["server", "http1"] }
hyper-util = { version = "0.1", features = ["tokio", "service"] }
metrics-exporter-prometheus = { version = "*", default-features = false, features = ["http-listener"] }
serde = { version = "1", features = ["derive"] }
tokio = { version = "1", features = ["full"] }
tokio-stream = "0.1"
tower-http = { version = "0.6", features = ["cors"] }
tracing = "0.1"
tracing-subscriber = { version = "0.3", features = ["env-filter"] }
async-stream = "0.3"
futures-util = "0.3"
