[package]
name = "gift"
version = "0.1.0"
edition = "2021"
publish = false

[dependencies]
anyhow = "1"
env_logger = "0.11"
flate2 = "1"
hex = "0.4"
sha1 = "0.10"
