[package]
name = "pngme"
version = "0.1.0"
edition = "2021"
publish = false

[dependencies]
anyhow = "1"
clap = "3.2"
crc = "3"
