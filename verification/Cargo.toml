[package]
name = "xash3d"
version = "0.1.0"
edition = "2021"
publish = false

[dependencies]
ahash = "=0.8.12"
blake2b_simd = "=1.0.5"
fastrand = "=2.5.0"
crossterm = "0.28"
getopts = "0.2"
