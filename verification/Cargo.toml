[package]
name = "ranksort"
version = "0.1.0"
edition = "2021"
publish = false

[dependencies]
opencl3 = "=0.6.3"
rand = "=0.8.8"
