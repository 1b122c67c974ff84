[package]
name = "plonky2"
version = "0.1.0"
edition = "2021"
publish = false

[dependencies]
log = "0.4"
metal = "0.29"
objc = "0.2"
rand = "0.8"
serde = { version = "1", features = ["derive"] }

[dev-dependencies]
p3-field = "0.1"
p3-goldilocks = "0.1"
p3-poseidon2 = "0.1"
p3-symmetric = "0.1"
