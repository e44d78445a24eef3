[package]
name = "poe_kitties"
version = "0.1.0"
edition = "2021"
publish = false

[dependencies]
sp-io = "*"
sp-crypto-hashing = "*"
blake2b_simd = "*"
