[package]
name = "kalypsi"
version = "0.1.0"
edition = "2021"
publish = false

[dependencies]
nanorand = { version = "0.7", default-features = false, features = ["std", "wyrand"] }
rand = "0.8"
