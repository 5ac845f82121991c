[package]
name = "dtw"
version = "0.1.0"
edition = "2021"
publish = false

[dependencies]
anyhow = "*"
clap = { version = "*", features = ["derive"] }
env_logger = "*"
log = "*"
regex = "*"
rustix = { version = "*", features = ["mm"] }
termcolor = "*"
