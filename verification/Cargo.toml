[package]
name = "jammdb"
version = "0.1.0"
edition = "2021"
publish = false

[dependencies]
hashbrown = "*"
lazy_static = "*"
spin = "*"
downcast = "*"
