[package]
name = "tools"
version = "0.1.0"
edition = "2021"
publish = false

[dependencies]
typed-arena = "=2.0.2"
