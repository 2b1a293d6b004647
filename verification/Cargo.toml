[package]
name = "flux"
version = "0.1.0"
edition = "2021"
publish = false

[dependencies]
zstd = "*"
serde_json = "*"
serde = { version = "*", features = ["derive"] }
tokio = { version = "*", features = ["full"] }
bytes = "*"
socket2 = "*"
toml = "*"
log = "*"
env_logger = "*"
thiserror = "*"
