[package]
name = "rgt"
version = "0.1.1"
edition = "2021"
publish = false

[dependencies]
text-size = "1"
