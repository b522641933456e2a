[package]
name = "cargo-wiiu"
version = "0.1.0"
edition = "2021"
publish = false

[dependencies]
flate2 = "1"
indextree = "4"
anyhow = "1"
clap = { version = "4", features = ["derive"] }
cargo_metadata = "*"
env_logger = "*"
log = "0.4"
