[package]
name = "notetype"
version = "0.1.0"
edition = "2021"
publish = false

[dependencies]
unicase = "2"
unicode-normalization = "0.1"
