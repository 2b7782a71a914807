[package]
name = "paged_storage"
version = "0.1.0"
edition = "2021"
publish = false

[dependencies]
bitvec = "1"
tokio = { version = "1", features = ["sync", "rt", "macros"] }
