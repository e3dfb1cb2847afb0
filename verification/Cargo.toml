[package]
name = "collectibles"
version = "0.1.0"
edition = "2021"
publish = false

[dependencies]
frame-support = "=49.0.0"
