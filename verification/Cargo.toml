[package]
name = "excavation"
version = "0.1.0"
edition = "2021"
publish = false

[dependencies]
rand = "0.7"
proconio = "0.3"
