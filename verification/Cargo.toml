[package]
name = "storm"
version = "0.1.0"
edition = "2021"
publish = false

[dependencies]
smallvec = "*"
unicode-ident = "*"
directories = "*"
parking_lot = "*"

[dev-dependencies]
itertools = "*"
