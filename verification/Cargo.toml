[package]
name = "rocket_seek_stream"
version = "0.1.0"
edition = "2021"
publish = false

[dependencies]
rand = "0.8"
tree_magic = "0.2"
rocket = "0.5"
futures = "0.3"

[dev-dependencies]
range_header = "*"
