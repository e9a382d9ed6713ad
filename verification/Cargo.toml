[package]
name = "pointguard"
version = "0.1.0"
edition = "2021"
publish = false

[dependencies]
anyhow = "1"
ptree = { version = "0.4", default-features = false }
walkdir = "2"
