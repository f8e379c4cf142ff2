[package]
name = "pokerus"
version = "0.1.0"
edition = "2021"
publish = false

[dependencies]
bitbit = "*"
png = "0.16"
