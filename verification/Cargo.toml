[package]
name = "matchx"
version = "0.1.0"
edition = "2021"
publish = false

[dependencies]
hashbrown = "0.15"
twox-hash = "2"
crc32fast = "1"
libc = "0.2"
