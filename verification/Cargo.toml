[package]
name = "raytracer"
version = "0.1.0"
edition = "2021"
publish = false

[dependencies]
rand = "*"
rayon = "*"
indicatif = "*"
image = { version = "*", default-features = false, features = ["png", "jpeg"] }
