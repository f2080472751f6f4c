[package]
name = "phone_scan_wasm"
version = "0.1.0"
edition = "2021"
publish = false

[dependencies]
image = { version = "=0.25.10", default-features = false, features = ["png", "jpeg"] }
imageproc = { version = "=0.27.0", default-features = false, features = ["text"] }
nalgebra = "=0.35.0"
ab_glyph = "=0.2.32"
anyhow = "=1.0.104"
serde = { version = "=1.0.229", features = ["derive"] }
serde_json = "=1.0.154"
once_cell = "=1.21.4"
wasm-bindgen = "=0.2.130"
