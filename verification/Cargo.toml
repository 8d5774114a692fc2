[package]
name = "benedictine"
version = "0.1.0"
edition = "2021"
publish = false

[dependencies]
log = "0.4"

[dev-dependencies]
env_logger = { version = "0.11", default-features = false }
