[package]
name = "calabi_yau"
version = "0.1.0"
edition = "2021"
publish = false

[dependencies]
wasm-minimal-protocol = "*"
