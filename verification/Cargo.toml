[package]
name = "cleansrt"
version = "0.1.0"
edition = "2021"
publish = false

[dependencies]
clap = "*"
log = "*"
env_logger = "*"
chrono = "*"
