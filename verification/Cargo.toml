[package]
name = "storage_proof"
version = "0.1.0"
edition = "2021"
publish = false

[dependencies]
blake2b_simd = "*"
parity-scale-codec = { version = "*", features = ["derive"] }
scale-info = { version = "*", features = ["derive"] }
