[package]
name = "vesto"
version = "0.1.0"
edition = "2021"
publish = false

[dependencies]
serde = { version = "1", features = ["derive"] }
serde_json = "1"
postcard = { version = "1", features = ["alloc"] }
bytemuck = "1"
ndarray = "0.16"
rand = "0.8"
pyo3 = "0.23"
pyo3-stub-gen = "0.7"
