[package]
name = "shamir_gf256"
version = "0.1.0"
edition = "2021"
publish = false

[dependencies]
hex = "*"
rand = "*"
reed-solomon = "*"
