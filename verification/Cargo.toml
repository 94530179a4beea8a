[package]
name = "ferrous_ta"
version = "0.1.0"
edition = "2021"
publish = false

[dev-dependencies]
rust_decimal = "1"
