[package]
name = "spellcheck"
version = "0.1.0"
edition = "2021"

[dependencies]
edit-distance = "2"

[dev-dependencies]
regex = "1"
