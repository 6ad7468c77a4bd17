[package]
name = "life_reverser"
version = "0.1.0"
edition = "2021"
publish = false

[dependencies]
ndarray = "0.16"
num-bigint = "0.4"
num-traits = "0.2"
rand = "0.8"
rayon = "1"
