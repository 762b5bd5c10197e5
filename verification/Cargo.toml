[package]
name = "rle_cracking"
version = "0.1.0"
edition = "2021"
publish = false

[dependencies]
bit-vec = "*"
csv = "*"
rand = "*"
time = "*"
