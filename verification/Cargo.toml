[package]
name = "binary_collections"
version = "0.1.0"
edition = "2021"
publish = false

[dependencies]
cc-traits = "*"
