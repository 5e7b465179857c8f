[package]
name = "slate"
version = "0.1.0"
edition = "2021"
publish = false

[dependencies]
blake3 = "1"
byteorder = "1"
highway = "1"
rocksdb = "*"
sha2 = "0.10"
thiserror = "*"
