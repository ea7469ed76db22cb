[package]
name = "mos_rust"
version = "0.1.0"
edition = "2021"
publish = false

[dependencies]
x86_64 = { version = "0.14", default-features = false, features = ["instructions"] }
