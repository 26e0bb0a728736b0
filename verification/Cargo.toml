[package]
name = "modexp"
version = "0.1.0"
edition = "2021"
publish = false

[dependencies]
num = "0.4"
evm = "*"

[dev-dependencies]
hex = "0.4"
