[package]
name = "polyomino"
version = "0.1.0"
edition = "2021"

[dependencies]
bit-vec = "0.6"
rustc-hash = "1.1"
lazy_static = "1.4"
