[package]
name = "secret_sharing_algos"
version = "0.1.0"
edition = "2021"
publish = false

[dependencies]
num = { version = "0.4", features = ["rand"] }
num-traits = "0.2"
rand = "0.8"
