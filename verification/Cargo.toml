[package]
name = "transmute"
version = "0.1.0"
edition = "2021"
publish = false

[dependencies]
cpython = "0.7"
