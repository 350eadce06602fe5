[package]
name = "egosphere"
version = "0.1.0"
edition = "2021"
publish = false

[dependencies]
euclid = "*"
gridd-euclid = "*"
moogle = "*"
symmetric-shadowcasting = "*"
