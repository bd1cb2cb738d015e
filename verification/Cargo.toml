[package]
name = "sskcp"
version = "0.1.0"
edition = "2021"
publish = false

[dependencies]
bytes = "0.4"
lru_time_cache = "*"
tokio_kcp = "*"
tokio-yamux = "*"
tokio = { version = "1", features = ["full"] }
futures = "0.3"
log = "0.4"
env_logger = "*"
serde = { version = "1", features = ["derive"] }
serde_urlencoded = "*"
subprocess = "*"
