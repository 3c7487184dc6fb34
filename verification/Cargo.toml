[package]
name = "felidae_classifier"
version = "0.1.0"
edition = "2021"
publish = false

[dependencies]
rand = "*"
image = { version = "*", default-features = false, features = ["png", "jpeg"] }
csv = "*"
osqp = "*"
tensorboard-rs = "*"
