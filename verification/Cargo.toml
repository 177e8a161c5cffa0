[package]
name = "seam_carver"
version = "0.1.0"
edition = "2021"
publish = false

[dependencies]
nalgebra = { version = "0.32", default-features = false, features = ["std"] }
num-traits = "0.2"
clap = { version = "4", features = ["derive"] }
env_logger = "0.10"
rand = "0.8"
