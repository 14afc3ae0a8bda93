[package]
name = "omp_hooks"
version = "0.1.0"
edition = "2021"
publish = false

[dependencies]
regress = "*"
serde_json = "*"
