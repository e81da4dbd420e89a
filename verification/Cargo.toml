[package]
name = "kvs"
version = "0.1.0"
edition = "2021"
publish = false

[dependencies]
serde = { version = "1", features = ["derive"] }
serde_json = "1"
clap = "4"
log = "0.4"
env_logger = "0.11"
failure = "0.1"
sled = "0.34"
