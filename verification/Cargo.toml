[package]
name = "file_dedup"
version = "0.1.0"
edition = "2021"
publish = false

[dependencies]
clap = "2"
error-chain = "0.12"
multimap = { version = "*", default-features = false }
