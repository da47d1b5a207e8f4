[package]
name = "pebble-engine"
version = "0.1.0"
edition = "2021"
publish = false

[dependencies]
crc32fast = "1"
tiny_http = "0.12"
