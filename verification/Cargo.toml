[package]
name = "razor"
version = "0.1.0"
edition = "2021"
publish = false

[dependencies]
shakmaty = "=0.29.4"
shakmaty-syzygy = "=0.27.0"
