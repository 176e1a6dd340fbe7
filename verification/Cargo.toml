[package]
name = "tilt_maze"
version = "0.1.0"
edition = "2021"
publish = false

[dependencies]
macroquad = { version = "0.4", default-features = false }
image = { version = "0.25", default-features = false, features = ["gif"] }
