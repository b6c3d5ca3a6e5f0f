[package]
name = "skora"
version = "0.1.0"
edition = "2021"
publish = false

[dependencies]
image = "0.24"
zip = "0.6"
hex = "0.4"
