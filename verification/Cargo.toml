[package]
name = "expbench"
version = "0.1.0"
edition = "2021"
publish = false

[dependencies]
regex = "=1.13.1"
clap = { version = "4", features = ["derive"] }
serde = { version = "1", features = ["derive"] }
toml = "0.8"
glob = "0.3"
walkdir = "2"
tempfile = "3"
path-absolutize = "3"
log = "0.4"
env_logger = "0.11"
indicatif = "0.18"
indicatif-log-bridge = "0.2"
pretty-duration = "0.1"
