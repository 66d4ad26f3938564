[package]
name = "compute_image"
version = "0.1.0"
edition = "2021"
publish = false

[dependencies]
sha2 = "0.10"
safetensors = "0.4"
serde = { version = "1", features = ["derive"] }
serde_json = "1"
parking_lot = "0.12"
half = "2"
tar = "0.4"
tempfile = "3"
memmap2 = "0.9"
metal = "*"
