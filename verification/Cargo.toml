[package]
name = "brc_engine"
version = "0.1.0"
edition = "2021"
publish = false

[dependencies]
anyhow = "*"
clap = { version = "*", features = ["derive"] }
memmap2 = "*"
rayon = "*"
