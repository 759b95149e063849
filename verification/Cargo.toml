[package]
name = "indexrs"
version = "0.1.0"
edition = "2021"
publish = false

[dependencies]
unicode-normalization = "*"
