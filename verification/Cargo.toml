[package]
name = "pocket_knife"
version = "0.1.0"
edition = "2021"
publish = false

[dependencies]

[dev-dependencies]
bincode = "2"
