[package]
name = "nono-cli"
version = "0.1.0"
edition = "2021"
publish = false

[dependencies]
nix = { version = "0.31", features = ["process", "user"] }
