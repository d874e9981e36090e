[package]
name = "mixed_degree_merkle"
version = "0.1.0"
edition = "2021"
publish = false

[dependencies]
blake2 = { version = "0.10", default-features = false }
blake3 = { version = "1.5", default-features = false, features = ["pure"] }
