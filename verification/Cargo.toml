[package]
name = "dusk"
version = "0.1.0"
edition = "2021"
publish = false

[dependencies]
walkdir = "*"
rayon = "*"
colored = "*"
clap = { version = "*", features = ["derive"] }

[dev-dependencies]
tempfile = "*"
