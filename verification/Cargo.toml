[package]
name = "x86md"
version = "0.1.0"
edition = "2021"
publish = false

[dependencies]
argh = "*"
hayro-interpret = "*"
kurbo = "*"
