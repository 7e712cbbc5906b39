[package]
name = "conservation_spectral_topology"
version = "0.1.0"
edition = "2021"
publish = false

[dependencies]
nalgebra = "*"
