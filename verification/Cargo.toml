[package]
name = "bedlam_cube"
version = "0.1.0"
edition = "2021"
publish = false

[dependencies]
itertools = "0.12"
csv = "1"
colored = "2"
rayon = "1"
clap = { version = "4", features = ["derive"] }
