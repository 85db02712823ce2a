[package]
name = "stylish-stringlike"
version = "0.1.0"
edition = "2021"
publish = false

[dependencies]
regex = "1"
unicode-segmentation = "1"
unicode-width = "0.1"

[dev-dependencies]
ansi_term = "0.12"
