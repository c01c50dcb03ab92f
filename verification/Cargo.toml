[package]
name = "ozlrip"
version = "0.1.0"
edition = "2021"
publish = false

[dependencies]
lz4rip = "=0.12.1"
smallvec = "=1.16.4"
xxhash-rust = { version = "=0.8.19", features = ["xxh3"] }
zrip = "=0.8.16"
zrip-core = "=0.9.1"
