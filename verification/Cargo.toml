[package]
name = "dirscan"
version = "0.1.0"
edition = "2021"
publish = false

[dependencies]
twox-hash = "*"
clap = { version = "*", features = ["derive"] }
colored = "*"
ignore = "*"
num-format = "*"
rayon = "*"
