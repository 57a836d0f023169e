[package]
name = "flock_prover"
version = "0.1.0"
edition = "2021"
publish = false

[dependencies]
blake3 = "1"
serde = { version = "1", features = ["derive"] }

[dev-dependencies]
sha3 = "0.10"
