[package]
name = "swrt"
version = "0.1.0"
edition = "2021"
publish = false

[dependencies]
fastrand = "*"
glam = "*"
serde = { version = "*", features = ["derive"] }
serde_json = "*"
image = { version = "*", default-features = false, features = ["png"] }
minifb = "*"
