[package]
name = "ec_engine"
version = "0.1.0"
edition = "2021"
publish = false

[dependencies]
anyhow = "1"
fancy-regex = "*"
libc = "0.2"
rquickjs = "*"
serde = { version = "1", features = ["derive"] }
serde_json = "1"
tokio = { version = "1", features = ["sync"] }
tracing = "0.1"
