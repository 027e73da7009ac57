[package]
name = "yaqa"
version = "0.1.0"
edition = "2021"
publish = false

[dependencies]
rand = "0.8"
chrono = "0.4"
structopt = "0.3"
