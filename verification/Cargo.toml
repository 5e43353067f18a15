[package]
name = "proxy"
version = "0.1.0"
edition = "2021"
publish = false

[dependencies]
bitcoincore-rpc = "*"
env_logger = "0.10"
log = "0.4"
serde = { version = "1", features = ["derive"] }
serde_json = "1"
tokio = { version = "1", features = ["macros", "rt-multi-thread"] }
toml = "0.8"
warp = { version = "0.3", features = ["compression"] }
