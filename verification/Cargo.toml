[package]
name = "rustrays"
version = "0.1.0"
edition = "2021"
publish = false

[dependencies]
fastrand = "2"
indicatif = "0.17"
