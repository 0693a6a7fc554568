[package]
name = "par2rust"
version = "0.1.0"
edition = "2021"
publish = false

[dependencies]
md-5 = "*"
crc32fast = "1"
rayon = "1"
memmap2 = "0.9"
indicatif = "0.17"
clap = { version = "4", features = ["derive"] }
thiserror = "1"
