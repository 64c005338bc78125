[package]
name = "katmos"
version = "0.1.0"
edition = "2021"
publish = false

[dependencies]
indexmap = "1"
fxhash = "0.2"
ahash = "0.7"
rayon = "1"
