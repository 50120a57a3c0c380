[package]
name = "dirsync"
version = "0.1.0"
edition = "2021"
publish = false

[dependencies]
sha1 = "=0.11.0"
anyhow = "=1.0.104"
tokio = { version = "=1.53.2", features = ["full"] }
tokio-tungstenite = "=0.30.0"
futures = "=0.3.34"
clap = { version = "=4.6.7", features = ["derive"] }
walkdir = "=2.5.0"
async-tar = "=0.6.1"
watchman_client = "=0.9.0"
serde = { version = "=1.0.229", features = ["derive"] }
