[package]
name = "kvs"
version = "0.1.0"
edition = "2021"
publish = false

[dependencies]
sled = "*"
clap = { version = "*", features = ["derive"] }
log = "*"
env_logger = "*"

[dev-dependencies]
tempfile = "*"
