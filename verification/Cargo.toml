[package]
name = "bioreader"
version = "0.1.0"
edition = "2021"
publish = false

[dependencies]
memchr = "2"
flate2 = "1"
memmap2 = "0.9"
