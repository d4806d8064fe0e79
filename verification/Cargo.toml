[package]
name = "resource_index"
version = "0.1.0"
edition = "2021"
publish = false

[dependencies]
walkdir = "=2.5.0"
canonical-path = "=2.0.2"
fs-err = "=3.3.2"
crc32fast = "=1.5.2"
log = "*"

[dev-dependencies]
tempfile = "=3.27.0"
filetime = "=0.2.29"
