[package]
name = "rscompress"
version = "0.1.0"
edition = "2021"
publish = false

[dependencies]
crc = "1.8.1"
suffix_array = "*"

[dev-dependencies]
rand = "0.8"
