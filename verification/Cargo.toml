[package]
name = "flvparse"
version = "0.1.0"
edition = "2021"
publish = false

[dependencies]
nom = { version = "*", default-features = false }
