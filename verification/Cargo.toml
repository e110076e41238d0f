[package]
name = "meerkat"
version = "0.1.0"
edition = "2021"
publish = false

[dependencies]
kameo = "*"
tokio = { version = "1", features = ["full"] }
clap = { version = "4", features = ["derive"] }
env_logger = "*"
log = "0.4"
