[package]
name = "grouper"
version = "0.1.0"
edition = "2021"
publish = false

[dependencies]
kmedoids = "*"
ndarray = "*"
rand = "*"
smartcore = "0.2"
tracing = "*"
tracing-subscriber = "*"
