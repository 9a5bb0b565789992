[package]
name = "waldb"
version = "0.1.0"
edition = "2021"
publish = false

[dependencies]
crc = "1.8"
log = "0.4"
env_logger = "0.10"
