[package]
name = "mandelbrot_renderer"
version = "0.1.0"
edition = "2021"
publish = false

[dependencies]
rug = "1"
image = { version = "0.25", default-features = false, features = ["png"] }
indicatif = "0.17"
rayon = "1"
serde = { version = "1", features = ["derive"] }
serde_json = "1"
