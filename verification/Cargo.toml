[package]
name = "stitch"
version = "0.1.0"
edition = "2021"
publish = false

[dependencies]
regex = "=1.13.1"
syn = { version = "=2.0.119", features = ["full"] }
dunce = "=1.0.5"
serde = { version = "=1.0.229", features = ["derive"] }
serde_json = "=1.0.154"
anyhow = "=1.0.104"
tiktoken-rs = "*"
