[package]
name = "compressed_map"
version = "0.1.0"
edition = "2021"
publish = false

[dependencies]
bincode = { version = "2", default-features = false, features = ["std"] }

[dev-dependencies]
rand = "0.8"
