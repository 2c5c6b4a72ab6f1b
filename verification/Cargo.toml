[package]
name = "sorted_set"
version = "0.1.0"
edition = "2021"
publish = false

[dependencies]
rustler = "0.29"
