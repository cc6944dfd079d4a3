[package]
name = "jit_memory"
version = "0.1.0"
edition = "2021"
publish = false

[dependencies]
region = "*"
nix = { version = "*", features = ["mman"] }
