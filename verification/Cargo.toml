[package]
name = "rusty_chain"
version = "0.1.0"
edition = "2021"
publish = false

[dependencies]
sha2 = "*"
hex = "*"
tokio = { version = "*", features = ["full"] }
anyhow = "*"
log = "*"
env_logger = "*"
