[package]
name = "scribe"
version = "0.1.0"
edition = "2021"
publish = false

[dependencies]
chacha20poly1305 = "0.10"
crossbeam-channel = "0.5"
flate2 = "1"
memmap2 = "0.9"
once_cell = "1"
parking_lot = "0.12"
serde = { version = "1", features = ["derive"] }
serde_json = "1"
zstd = "0.13"
