[package]
name = "llmd"
version = "0.1.0"
edition = "2021"
publish = false

[dependencies]
anyhow = "1"
clap = { version = "4", features = ["derive"] }
iso8601-timestamp = "*"
regex-lite = "*"
serde = { version = "1", features = ["derive"] }
serde_json = "1"
walkdir = "2"
