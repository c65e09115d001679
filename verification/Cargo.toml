[package]
name = "cap_primitives"
version = "0.1.0"
edition = "2021"
publish = false

[dependencies]
posish = "=0.16.0"
