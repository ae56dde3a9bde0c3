[package]
name = "qiskit_providers"
version = "0.1.0"
edition = "2021"
publish = false

[dependencies]
hashbrown = "=0.17.1"
rustworkx-core = "=0.18.1"
ndarray = "=0.17.2"
