[package]
name = "clove_core"
version = "2026.8.0"
edition = "2021"
publish = false

[dependencies]
sha1 = "0.10"
rustix = { version = "1", features = ["fs"] }
