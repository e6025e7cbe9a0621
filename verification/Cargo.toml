[package]
name = "snapdiff"
version = "0.1.0"
edition = "2021"
publish = false

[dependencies]
anyhow = "1"
clap = { version = "3", features = ["derive"] }
colored = "2"
rayon = "1"
ssh2 = "0.9"
walkdir = "2"
