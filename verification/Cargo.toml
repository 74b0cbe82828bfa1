[package]
name = "qubosat"
version = "0.1.0"
edition = "2021"
publish = false

[dependencies]
varisat = "0.2"
clap = { version = "3", features = ["derive"] }
