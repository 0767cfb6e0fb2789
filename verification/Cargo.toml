[package]
name = "card_raytracer"
version = "0.1.0"
edition = "2021"
publish = false

[dependencies]
itertools = "*"
rand = "0.8"
threadpool = "1"
