[package]
name = "remote_layers"
version = "0.1.0"
edition = "2021"
publish = false

[dependencies]
anyhow = "1"
candle-core = "*"
candle-nn = "*"
tokio = { version = "1", features = ["sync"] }
tracing = "0.1"
