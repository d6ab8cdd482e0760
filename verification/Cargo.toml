[package]
name = "cargo_script"
version = "0.1.0"
edition = "2021"
publish = false

[dependencies]
toml = "0.8"
shaman = "*"
rustc-serialize = "*"
clap = "*"
regex = "*"
env_logger = "*"
log = "*"
