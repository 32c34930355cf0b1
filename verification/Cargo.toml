[package]
name = "byte_rope"
version = "0.1.0"
edition = "2021"
publish = false

[dependencies]
anyhow = "1"
bytes = "1"
futures = "0.3"
serde = "1"
tokio = { version = "1", features = ["io-util"] }
