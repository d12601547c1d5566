[package]
name = "sh1122"
version = "0.1.0"
edition = "2021"
publish = false

[dependencies]
chrono = "*"
freetype-rs = "*"
rppal = "*"
