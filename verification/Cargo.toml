[package]
name = "spatial_search"
version = "0.1.0"
edition = "2021"
publish = false

[dependencies]
kdtree = "*"
rand = "0.8"
rayon = "*"
