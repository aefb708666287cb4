[package]
name = "gbam_tools"
version = "0.1.0"
edition = "2021"
publish = false

[dependencies]
flate2 = "*"
brotli = "*"
lzzzz = "*"
xz2 = "*"
zstd = "*"
flume = "*"
rayon = "*"
