[package]
name = "kzg_core"
version = "0.1.0"
edition = "2021"
publish = false

[dependencies]
bls12_381 = "=0.9.0"
ff = "*"
