[package]
name = "xinterp"
version = "0.1.0"
edition = "2021"
publish = false

[dependencies]
astro-float = "*"
numpy = "0.20"
pyo3 = "0.20"
