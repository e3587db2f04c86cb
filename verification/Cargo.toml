[package]
name = "udp_ring"
version = "0.1.0"
edition = "2021"
publish = false

[dependencies]
clap = { version = "3", features = ["derive"] }
io-uring = "0.5"
nix = "0.23"
