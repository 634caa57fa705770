[package]
name = "jirapush"
version = "0.1.0"
edition = "2021"
publish = false

[dependencies]
log = "*"
env_logger = "*"
reqwest = { version = "*", default-features = false, features = ["blocking"] }
