[package]
name = "storage"
version = "0.1.0"
edition = "2021"
publish = false

[dependencies]
rkv = "=0.9.7"

[dev-dependencies]
tempfile = "=3.27.0"
