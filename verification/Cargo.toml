[package]
name = "netopo"
version = "0.1.0"
edition = "2021"
publish = false

[dependencies]
anyhow = "=1.0.104"
chrono = "=0.4.45"
clap = { version = "=4.6.7", features = ["derive"] }
crossterm = "=0.28.1"
dns-lookup = "=2.1.1"
ipnet = "=2.12.2"
maxminddb = "=0.32.0"
petgraph = "=0.6.5"
pnet = "=0.35.0"
ratatui = "=0.29.0"
serde = { version = "=1.0.229", features = ["derive"] }
serde_json = "=1.0.154"
tokio = { version = "=1.54.1", features = ["full"] }
