[package]
name = "bvh_closest_points"
version = "0.1.0"
edition = "2021"
publish = false

[dependencies]
nalgebra = "0.32"
simba = "0.8"
