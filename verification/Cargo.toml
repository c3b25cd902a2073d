[package]
name = "lanwatch"
version = "0.1.0"
edition = "2021"
publish = false

[dependencies]
anyhow = "1"
chrono = "0.4"
env_logger = "0.11"
log = "0.4"
serde = { version = "1", features = ["derive"] }
serde_with = "3"
toml = "0.8"
ureq = "3"
