[package]
name = "pinax"
version = "0.1.0"
edition = "2021"
publish = false

[dependencies]
compact_str = "*"
snafu = "*"
xxhash-rust = { version = "*", features = ["xxh3"] }
