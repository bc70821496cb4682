[package]
name = "sigmar_garden"
version = "0.1.0"
edition = "2021"
publish = false

[dependencies]
itertools = "0.12"
image = { version = "0.24", default-features = false, features = ["png"] }
mouse-rs = "0.4"
