[package]
name = "mesi_cache"
version = "0.1.0"
edition = "2021"
publish = false

[dependencies]
bit-vec = "*"
lru_time_cache = "*"
chrono = "0.4"
rand = "0.8"
