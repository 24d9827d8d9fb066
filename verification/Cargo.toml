[package]
name = "msrtc_rans"
version = "0.3.0"
edition = "2021"
publish = false

[dependencies]
sha2 = "=0.10.9"
serde = { version = "=1.0.229", features = ["derive"] }
serde_json = "=1.0.154"
pyo3 = "0.22"
