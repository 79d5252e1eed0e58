[package]
name = "proxied"
version = "0.1.0"
edition = "2021"
publish = false

[dependencies]
axum = "*"
tokio = { version = "*", features = ["net", "io-util"] }
tracing = "*"
