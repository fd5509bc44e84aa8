[package]
name = "circuit_builder"
version = "0.1.0"
edition = "2021"
publish = false

[dependencies]
rayon = "1"
log = "0.4"
parking_lot = "0.12"

[dev-dependencies]
rand = "0.8"
