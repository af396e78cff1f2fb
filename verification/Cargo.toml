[package]
name = "redrock"
version = "0.1.0"
edition = "2021"
publish = false

[dependencies]
bincode = "1"
byteorder = "1"
rocksdb = { version = "0.22", default-features = false, features = ["lz4"] }
