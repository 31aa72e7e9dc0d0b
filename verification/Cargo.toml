[package]
name = "own"
version = "0.1.0"
edition = "2021"
publish = false

[dependencies]
glob = "=0.3.4"
anyhow = "=1.0.104"
clap = { version = "=4.6.7", features = ["derive"] }
crossterm = "=0.28.1"
ratatui = "=0.29.0"
serde = { version = "=1.0.229", features = ["derive"] }
serde_json = "=1.0.154"
sha2 = "0.10"
