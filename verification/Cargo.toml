[package]
name = "hash_finder"
version = "0.1.0"
edition = "2021"
publish = false

[dependencies]
sha256 = "*"
tokio = { version = "*", features = ["rt", "rt-multi-thread", "macros", "sync"] }
thiserror = "*"
