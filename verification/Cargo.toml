[package]
name = "wta_min"
version = "0.1.0"
edition = "2021"
publish = false

[dependencies]
nalgebra = "*"
clap = { version = "*", features = ["derive"] }
env_logger = "*"
log = "*"
trees = "*"
