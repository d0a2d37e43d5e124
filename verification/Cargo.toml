[package]
name = "cthulhu"
version = "0.1.0"
edition = "2021"
publish = false

[dependencies]
chrono = "=0.4.45"
rayon = "=1.12.0"
csv = "=1.4.0"
regex = "=1.13.1"
hashbrown = "=0.17.1"
