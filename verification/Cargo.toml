[package]
name = "st7789v"
version = "0.4.0"
edition = "2021"
publish = false

[dependencies]
embassy-time = "*"
embedded-hal = "1.0"
embedded-hal-async = "1.0"
