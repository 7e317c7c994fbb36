[package]
name = "metacat"
version = "0.1.0"
edition = "2021"
publish = false

[dependencies]
hexpr = "=0.3.1"
open-hypergraphs = "=0.3.2"
anyhow = "=1.0.104"
clap = { version = "=4.6.7", features = ["derive"] }
colored = "=3.1.1"
env_logger = "=0.11.11"
serde = { version = "=1.0.229", features = ["derive"] }
serde_json = "=1.0.154"
tokio = { version = "=1.54.1", features = ["io-std", "macros", "rt-multi-thread", "sync"] }
tower-lsp = "=0.20.0"
