[package]
name = "miden_crypto"
version = "0.1.0"
edition = "2021"
publish = false

[dependencies]
p3-field = "=0.5.4"
p3-goldilocks = "=0.5.4"
p3-util = "=0.5.4"
p3-matrix = "=0.5.4"
p3-symmetric = "=0.5.4"
p3-poseidon2 = "=0.5.4"
rand = { version = "0.10", features = ["std"] }
serde = { version = "1", features = ["derive"] }

[dev-dependencies]
p3-dft = "=0.5.4"
p3-interpolation = "=0.5.4"
