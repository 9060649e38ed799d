[package]
name = "minic"
version = "0.1.0"
edition = "2021"
publish = false

[dependencies]
logos = "0.12"
text-size = "1"
