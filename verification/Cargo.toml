[package]
name = "yin-yang-extractor"
version = "0.1.0"
edition = "2021"
publish = false

[dependencies]
image = { version = "0.25", default-features = false, features = ["png", "jpeg", "gif", "bmp"] }
clap = { version = "4", features = ["derive"] }
env_logger = "0.11"
log = "0.4"
