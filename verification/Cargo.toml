[package]
name = "kip_db"
version = "0.1.0"
edition = "2021"
publish = false

[dependencies]
memmap2 = "*"
tokio = { version = "*", features = ["rt", "net", "sync", "io-util", "macros"] }
