[package]
name = "chitta_field"
version = "0.1.0"
edition = "2021"
publish = false

[dependencies]
bincode = "1"
crc32fast = "1"
libc = "0.2"
memmap2 = "0.9"
parking_lot = "0.12"
serde = { version = "1", features = ["derive"] }
serde_json = "1"
sha2 = "0.10"
