[package]
name = "kv"
version = "0.1.0"
edition = "2021"
publish = false

[dependencies]
serde = { version = "1", features = ["derive"] }
serde_json = "1"
rustc-hash = "2"
thiserror = "1"
log = "0.4"
pretty_env_logger = "0.5"
clap = { version = "4", features = ["derive"] }
toml = "0.8"
notify = "6"
parking_lot = "0.12"
tokio = { version = "1", features = ["full"] }
serenity = "0.11"

[dev-dependencies]
tempfile = "3"
rand = "0.8"
