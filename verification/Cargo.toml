[package]
name = "tsp_art"
version = "0.1.0"
edition = "2021"
publish = false

[dependencies]
clap = { version = "4", features = ["derive"] }
fixed = "1"
geo = "*"
image = { version = "0.25", default-features = false, features = ["png", "jpeg"] }
kiddo = "4"
rand = "0.9"
rayon = "1"
rustfft = "6"
svg = "*"
voronator = "0.2"
