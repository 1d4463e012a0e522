[package]
name = "massive_csv_core"
version = "0.1.0"
edition = "2021"
publish = false

[dependencies]
clap = { version = "*", features = ["derive"] }
memmap2 = "*"
rayon = "*"
tempfile = "*"
