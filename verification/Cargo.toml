[package]
name = "twenty_first"
version = "0.1.0"
edition = "2021"
publish = false

[dependencies]
blake3 = { version = "1", default-features = false, features = ["pure"] }

[dev-dependencies]
rand = "0.9"
