[package]
name = "anvil_region"
version = "0.1.0"
edition = "2021"
publish = false

[dependencies]
bitvec = "=1.1.1"
named-binary-tag = "=0.6.0"
zip = "=8.6.0"
