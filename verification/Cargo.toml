[package]
name = "define"
version = "0.1.0"
edition = "2021"
publish = false

[dependencies]
ansi_term = "*"
atty = "*"
clap = { version = "*", features = ["derive"] }
env_logger = "*"
log = "*"
