[package]
name = "eco"
version = "0.1.0"
edition = "2021"
publish = false

[dependencies]
piston_meta = "*"
range = "*"
semver = "*"
hyper = "0.10"
