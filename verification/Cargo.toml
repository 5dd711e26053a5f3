[package]
name = "parallel_matrix_engine"
version = "0.1.0"
edition = "2021"
publish = false

[dependencies]
rayon = "1"
rand = "0.8"

[dev-dependencies]
approx = "0.5"
