[package]
name = "debug-log-tool"
version = "0.1.0"
edition = "2021"
publish = false

[dependencies]
clap = { version = "4", features = ["derive"] }
flate2 = "1"
zstd = { version = "0.13", features = ["zstdmt"] }
