[package]
name = "p2p_services"
version = "0.1.0"
edition = "2021"
publish = false

[dependencies]
rand = "=0.8.8"
lru = "=0.12.5"
serde = { version = "=1.0.229", features = ["derive"] }
bincode = "=1.3.3"
tokio = { version = "=1.54.1", features = ["sync", "time", "rt", "macros", "io-util"] }
anyhow = "=1.0.104"
log = "=0.4.35"
