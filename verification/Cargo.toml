[package]
name = "raytracer"
version = "0.1.0"
edition = "2021"
publish = false

[dependencies]
rand = "0.8"
image = { version = "0.24", default-features = false, features = ["png", "jpeg"] }
indicatif = "0.17"
threadpool = "1.8"
