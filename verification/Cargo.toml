[package]
name = "dns-forwarder"
version = "0.2.0"
edition = "2021"
publish = false

[dependencies]
anyhow = "*"
env_logger = "*"
fastrand = "*"
log = "*"
lru = "*"
serde = { version = "*", features = ["derive"] }
serde_json = "*"
tokio = { version = "*", features = ["macros", "net", "rt-multi-thread", "sync", "time"] }
toml = "*"
