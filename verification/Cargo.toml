[package]
name = "pdfscan"
version = "0.1.0"
edition = "2021"
publish = false

[dependencies]
pdf-extract = "=0.12.1"
chrono = "=0.4.45"
walkdir = "=2.5.0"
clap = { version = "=4.6.7", features = ["derive"] }
miniz_oxide = "=0.9.1"
crc32fast = "=1.5.2"
