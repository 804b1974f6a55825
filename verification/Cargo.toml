[package]
name = "pixel_noise"
version = "0.1.0"
edition = "2021"
publish = false

[dependencies]
image = { version = "=0.21.3", default-features = false }
rand = "=0.6.5"
