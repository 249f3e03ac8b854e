[package]
name = "optimap"
version = "0.1.0"
edition = "2021"
publish = false

[dependencies]
vector-map = "=0.6.0"
