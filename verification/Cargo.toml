[package]
name = "dla"
version = "0.1.0"
edition = "2021"
publish = false

[dependencies]
image = { version = "0.24", default-features = false, features = ["png"] }
rand = "0.8"
rand_pcg = "0.3"
pcg = "*"
