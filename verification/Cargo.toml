[package]
name = "quantized_interactions"
version = "0.1.0"
edition = "2021"
publish = false

[dependencies]
anyhow = "*"
clap = { version = "*", features = ["derive"] }
env_logger = "*"
image = { version = "*", default-features = false, features = ["png"] }
log = "*"
