[package]
name = "gkr"
version = "0.1.0"
edition = "2021"
publish = false

[dependencies]
ark-bn254 = "0.5.0"
ark-ff = "0.5.0"
sha3 = "0.10.8"
