[package]
name = "script_descriptor"
version = "0.1.0"
edition = "2021"
publish = false

[dependencies]
bitcoin = "0.32"
secp256k1 = "0.29"
