[package]
name = "core_engine"
version = "0.1.0"
edition = "2021"
publish = false

[dependencies]
rand = "=0.10.3"
crossterm = "=0.29.0"
ratatui = "=0.30.2"
wasm-bindgen = "=0.2.130"
serde = { version = "=1.0.229", features = ["derive"] }
serde-wasm-bindgen = "=0.6.5"
rayon = "=1.12.0"
pyo3 = "*"
numpy = "*"
