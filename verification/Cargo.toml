[package]
name = "brc"
version = "0.1.0"
edition = "2021"
publish = false

[dependencies]
clap = { version = "*", features = ["derive"] }
crossbeam-channel = "*"
dashmap = "*"
memchr = "*"
memmap = "*"
rayon = "*"
