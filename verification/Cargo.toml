[package]
name = "newton_fractal"
version = "0.1.0"
edition = "2021"
publish = false

[dependencies]
num = "0.4"
distance-transform = "*"
image = { version = "0.24", default-features = false, features = ["png"] }
scoped_threadpool = "0.1"
