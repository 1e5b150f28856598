[package]
name = "fast_pixel_fix"
version = "0.1.0"
edition = "2021"
publish = false

[dependencies]
image = "0.25"
num_cpus = "1"
