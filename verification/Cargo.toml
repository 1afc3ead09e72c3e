[package]
name = "bc_algo"
version = "0.1.0"
edition = "2021"
publish = false

[dependencies]
ring = "*"

[dev-dependencies]
rand = "*"
