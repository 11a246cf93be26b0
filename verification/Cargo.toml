[package]
name = "polars_simed"
version = "0.1.0"
edition = "2021"
publish = false

[dependencies]
itertools = "=0.13.0"
ngrams = "=1.0.1"
num = "0.4"
polars = { version = "0.43", default-features = false }
pyo3 = "0.22"
pyo3-polars = "0.17"
rayon = "1"
