[package]
name = "hash"
version = "0.1.0"
edition = "2021"
publish = false

[dependencies]
getrandom = "0.2"
lazy_static = "1.4"

[dev-dependencies]
rand = "0.8"
