[package]
name = "online_algorithms"
version = "0.1.0"
edition = "2021"
publish = false

[dependencies]
rand = "0.9"
rayon = "1"
indicatif = "0.17"
csv = "1"
