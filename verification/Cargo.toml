[package]
name = "boogy_db"
version = "0.1.0"
edition = "2021"
publish = false

[dependencies]
aes-gcm = "0.10"
crc32fast = "1"
memmap2 = "0.9"
rand = "0.9"
tokio = { version = "1", features = ["sync"] }
