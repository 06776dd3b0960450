[package]
name = "kingdom-citymap"
version = "0.1.0"
edition = "2021"
publish = false

[dependencies]
ignore = "0.4"
