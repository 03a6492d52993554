[package]
name = "vhdx"
version = "0.3.5"
edition = "2021"
publish = false

[dependencies]
crc32c = "0.6"
am-fs-core = "0.2"

[dev-dependencies]
saphyr = "*"
