[package]
name = "kv_ingest"
version = "0.1.0"
edition = "2021"
publish = false

[dependencies]
regex = "1"
serde_json = { version = "1", features = ["preserve_order"] }
rayon = "1"
pyo3 = "*"
