[package]
name = "bulls_and_cows"
version = "0.1.0"
edition = "2021"
publish = false

[dependencies]
permutohedron = "0.2"
rand = "0.8"
random-pick = "1"

[dev-dependencies]
regex = "1"
