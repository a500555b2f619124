[package]
name = "queens"
version = "0.1.0"
edition = "2021"
publish = false

[dependencies]
const_format = "*"
cursive = "*"
