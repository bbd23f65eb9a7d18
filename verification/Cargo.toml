[package]
name = "msbg"
version = "0.1.0"
edition = "2021"
publish = false

[dependencies]
rayon = "1"
ply-rs = "0.1"
image = { version = "0.25", default-features = false, features = ["png"] }
