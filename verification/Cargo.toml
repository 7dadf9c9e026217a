[package]
name = "symmetric_pre"
version = "0.1.0"
edition = "2021"
publish = false

[dependencies]
collar = "*"
factorial = "*"
num-bigint = { version = "0.4", features = ["rand"] }
num-traits = "0.2"
rand = "0.8"
sha3 = "0.10"
