[package]
name = "gxter"
version = "0.1.0"
edition = "2021"
publish = false

[dependencies]
crc32_light = "*"
serde = { version = "*", features = ["derive"] }
toml = "*"
indexmap = { version = "*", features = ["serde"] }
anstyle = "*"
getopts = "*"
