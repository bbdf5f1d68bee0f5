[package]
name = "classical_ciphers"
version = "0.1.0"
edition = "2021"
publish = false

[dependencies]
rand = "*"
