[package]
name = "aethel_core"
version = "0.1.0"
edition = "2021"
publish = false

[dependencies]
sha3 = "0.10"
zeroize = "1"
rand_core = "0.6"
pqc-sig = "*"
