[package]
name = "pazk"
version = "0.1.0"
edition = "2021"
publish = false

[dependencies]
ark-bls12-377 = "0.4"
ark-ff = "0.4"
nalgebra = { version = "0.32", default-features = false, features = ["std"] }
rand_core = { version = "0.6", features = ["getrandom"] }
