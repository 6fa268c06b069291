[package]
name = "circuit_samples"
version = "0.1.0"
edition = "2021"
publish = false

[dependencies]
ff = "=0.13.1"
halo2_proofs = { version = "=0.3.5", default-features = false }

[dev-dependencies]
rand_core = "=0.6.4"
