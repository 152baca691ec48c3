[package]
name = "plexdb"
version = "0.1.0"
edition = "2021"
publish = false

[dependencies]
crc32fast = "*"
lz4_flex = "*"
snap = "*"
zstd = "*"
clap = { version = "*", features = ["derive"] }
anyhow = "*"
env_logger = "*"
