[package]
name = "memegeom"
version = "0.1.0"
edition = "2021"
publish = false

[dependencies]
rust-dense-bitset = "*"
earcutr = "*"
nalgebra = "*"
smallvec = "*"
ordered-float = "*"
auto_ops = "*"
approx = "*"
