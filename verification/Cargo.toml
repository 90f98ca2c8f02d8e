[package]
name = "op_heads"
version = "0.1.0"
edition = "2021"
publish = false

[dependencies]
hex = "0.4"
itertools = "0.10"
