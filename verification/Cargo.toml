[package]
name = "aoc2023"
version = "0.1.0"
edition = "2021"
publish = false

[dependencies]
rayon = "=1.12.0"

[dev-dependencies]
nom = "=7.1.3"
regex = "=1.13.1"
