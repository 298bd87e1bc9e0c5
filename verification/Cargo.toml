[package]
name = "key_capture"
version = "0.2.0"
edition = "2021"
publish = false

[dependencies]
ahash = "*"
colored = "*"
crossterm = "*"
device_query = "*"
env_logger = "*"
hashbrown = "*"
log = "*"
