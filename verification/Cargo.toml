[package]
name = "ppoprf"
version = "0.1.0"
edition = "2021"
publish = false

[dependencies]
bitvec = "0.20"
ring = "0.16"
