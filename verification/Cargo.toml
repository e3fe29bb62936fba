[package]
name = "street_plan"
version = "0.1.0"
edition = "2021"
publish = false

[dependencies]
rand = "0.9"
nalgebra = "0.33"
rayon = "1"
