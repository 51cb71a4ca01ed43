[package]
name = "clique_cover"
version = "0.1.0"
edition = "2021"
publish = false

[dependencies]
bitvec_simd = "=0.20.5"
fastrand = "=2.5.0"
thousands = "=0.2.0"
