[package]
name = "mackerel"
version = "0.1.0"
edition = "2021"
publish = false

[dependencies]
rdev = "*"
serde = { version = "1", features = ["derive"] }
toml = "*"
log = "*"
env_logger = "*"
