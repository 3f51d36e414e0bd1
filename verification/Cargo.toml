[package]
name = "mundios"
version = "0.1.0"
edition = "2021"
publish = false

[dependencies]
colored = "2"
comfy-table = "7"
rand = "0.8"
