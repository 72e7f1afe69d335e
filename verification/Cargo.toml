[package]
name = "tct"
version = "0.1.0"
edition = "2021"
publish = false

[dependencies]
ark-ff = "0.4"
blake2b_simd = "1"
decaf377 = "*"
poseidon377 = "*"
hex = "0.4"
