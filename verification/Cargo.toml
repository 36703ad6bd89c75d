[package]
name = "magnumdb"
version = "0.4.4"
edition = "2021"
publish = false

[dependencies]
anyhow = "1"
crc32fast = "1"
lru = "*"
md5 = "*"
serde = { version = "1", features = ["derive"] }
serde_json = "1"
toml = "*"
tokio = { version = "1", features = ["full"] }
log = "0.4"
env_logger = "*"
parking_lot = "0.12"
clap = { version = "4", features = ["derive"] }
