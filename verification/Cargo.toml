[package]
name = "kvs"
version = "0.1.0"
edition = "2021"
publish = false

[dependencies]
sled = "0.34"
rayon = "*"
clap = { version = "4", features = ["derive"] }
anyhow = "*"
log = "*"
env_logger = "*"
