[package]
name = "fsearch"
version = "0.1.0"
edition = "2021"
publish = false

[dependencies]
anyhow = "*"
inquire = "*"
rayon = "*"
