[package]
name = "better-image-view"
version = "0.1.0"
edition = "2021"
publish = false

[dependencies]
gtk4 = { version = "*", features = ["v4_14"] }
libvips = "*"
cairo-rs = { version = "*", features = ["png"] }
