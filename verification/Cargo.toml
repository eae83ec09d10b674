[package]
name = "schiebung"
version = "0.1.0"
edition = "2021"
publish = false

[dependencies]
nalgebra = "*"
clap = { version = "*", features = ["derive"] }
confy = "*"
dirs = "*"
env_logger = "*"
log = "*"
serde = { version = "*", features = ["derive"] }
thiserror = "*"
