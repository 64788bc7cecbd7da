[package]
name = "siertrichain"
version = "0.1.0"
edition = "2021"
publish = false

[dependencies]
hex = "*"
rand = "*"
rust_decimal = { version = "*", features = ["maths"] }
sha2 = "*"
