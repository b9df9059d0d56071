[package]
name = "snekdown"
version = "0.1.0"
edition = "2021"
publish = false

[dependencies]
asciimath-rs = "=0.6.2"
charred = "=0.3.6"
regex = "=1.13.1"
