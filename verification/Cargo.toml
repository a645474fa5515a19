[package]
name = "graphkit"
version = "0.1.0"
edition = "2021"
publish = false

[dependencies]
faer = "0.22"
rand = "0.9"
