[package]
name = "c2pa-vtt"
version = "0.2.0"
edition = "2021"
publish = false

[dependencies]
c2pa-structured-text = "=0.3.0"
sha2 = "=0.10.9"
c2pa = { version = "0.89", default-features = false, features = ["rust_native_crypto"] }
pyo3 = { version = "0.25", features = ["extension-module", "abi3-py39"] }
wasm-bindgen = "=0.2.130"
js-sys = "=0.3.107"
