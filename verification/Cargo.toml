[package]
name = "hwt"
version = "0.1.0"
edition = "2021"
publish = false

[dependencies]
ahash = "=0.8.12"
hashbrown = "=0.17.1"
itertools = "=0.15.0"
swar = "=0.3.1"

[dev-dependencies]
rand = "=0.6.5"
