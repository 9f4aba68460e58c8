[package]
name = "billion_rows"
version = "0.1.0"
edition = "2021"
publish = false

[dependencies]
indicatif = "*"
