[package]
name = "fastlog_core"
version = "0.1.0"
edition = "2021"
publish = false

[dependencies]
lz4 = "*"
chrono = "*"
serde = { version = "*", features = ["derive"] }
serde_json = "*"
