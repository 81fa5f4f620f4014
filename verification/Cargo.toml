[package]
name = "ini_parser"
version = "0.1.0"
edition = "2021"
publish = false

[dependencies]
alpm = { version = "=5.0.2", default-features = false }
anyhow = "=1.0.104"
chrono = { version = "=0.4.45", features = ["serde"] }
serde = { version = "=1.0.229", features = ["derive"] }
serde_json = "=1.0.151"
