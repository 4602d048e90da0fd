[package]
name = "rustx"
version = "0.1.0"
edition = "2021"
publish = false

[dependencies]
dirs = "*"
clap = { version = "*", features = ["derive"] }
env_logger = "*"
log = "*"
