[package]
name = "compas_forge"
version = "0.1.0"
edition = "2021"
publish = false

[dependencies]
rayon = "1"
serde = { version = "1", features = ["derive"] }
serde_json = "1"
simd-json = "*"
rstar = "*"
parry3d-f64 = "*"
pyo3 = "*"
