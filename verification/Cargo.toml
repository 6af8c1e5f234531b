[package]
name = "ledger_reports"
version = "0.1.0"
edition = "2021"
publish = false

[dependencies]
ledger-parser = "*"
chrono = "*"
rust_decimal = "*"
filetime = "*"
serde = { version = "*", features = ["derive"] }
serde_json = "*"
axum = "*"
tokio = { version = "*", features = ["full"] }
tower-http = { version = "*", features = ["trace"] }
tracing = "*"
tracing-subscriber = "*"
