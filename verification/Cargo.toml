[package]
name = "lazy_storage"
version = "0.1.0"
edition = "2021"
publish = false

[dependencies]
blake2-rfc = "0.2"
sha2 = "0.8"
tiny-keccak = { version = "2", features = ["keccak"] }
