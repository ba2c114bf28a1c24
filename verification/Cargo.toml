[package]
name = "constmap"
version = "1.1.0"
edition = "2021"
publish = false

[dependencies]
xxhash-rust = { version = "0.8", features = ["xxh64"] }

[dev-dependencies]
rand = "0.8"
