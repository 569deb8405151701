[package]
name = "patrol"
version = "0.1.0"
edition = "2021"
publish = false

[dependencies]
array2d = "0.3"
enum-map = "2"
enumflags2 = "0.7"
