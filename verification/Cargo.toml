[package]
name = "txn-db"
version = "0.8.0"
edition = "2021"
publish = false

[dependencies]
error-forge = "*"
wal-db = { version = "*", default-features = false }
