[package]
name = "vibe_search"
version = "0.1.0"
edition = "2021"
publish = false

[dependencies]
syntect = "=5.3.0"
serde = { version = "=1.0.229", features = ["derive"] }
serde_json = "=1.0.154"
clap = { version = "=4.6.7", features = ["derive"] }
tokio = { version = "=1.54.1", features = ["full"] }
anyhow = "=1.0.104"
ratatui = "=0.29.0"
binaryornot = "=1.0.0"
rayon = "=1.12.0"
tokio-rayon = "=2.1.0"
tracing = "=0.1.44"
tracing-subscriber = "=0.3.23"
