[package]
name = "ustr"
version = "0.1.0"
edition = "2021"
publish = false

[dependencies]
ahash = { version = "0.8", default-features = false }
byteorder = "1"
lazy_static = "1"
parking_lot = "0.12"
serde = "1"
