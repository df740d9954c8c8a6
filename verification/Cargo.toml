[package]
name = "trace_top"
version = "0.1.0"
edition = "2021"
publish = false

[dependencies]
axum = "*"
crossterm = "*"
hex = "*"
jiff = "*"
opentelemetry-proto = { version = "*", features = ["gen-tonic", "trace"] }
parking_lot = "*"
ratatui = "*"
serde = { version = "*", features = ["derive"] }
tokio = { version = "*", features = ["full"] }
tonic = "*"
