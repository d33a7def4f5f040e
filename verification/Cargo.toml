[package]
name = "assetmanage_rs"
version = "0.5.0"
edition = "2021"
publish = false

[dependencies]
futures = "0.3"
