[package]
name = "logy"
version = "0.1.0"
edition = "2021"
publish = false

[dependencies]
chrono = "0.4"
clap = "2"
env_logger = "0.9"
flate2 = "1"
log = "0.4"
regex = "1"
