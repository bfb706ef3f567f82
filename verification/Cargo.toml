[package]
name = "mygraph"
version = "0.1.0"
edition = "2021"
publish = false

[dependencies]
csv = "*"
env_logger = "*"
nalgebra = "*"
nalgebra-sparse = "*"
rayon = "*"
