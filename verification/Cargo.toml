[package]
name = "terrain"
version = "0.1.0"
edition = "2021"
publish = false

[dependencies]
noise = "=0.9.0"
image = { version = "=0.25.10", default-features = false, features = ["png"] }
