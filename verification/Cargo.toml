[package]
name = "dns_fastpath"
version = "0.1.0"
edition = "2021"
publish = false

[dependencies]
hickory-proto = { version = "*", default-features = false }
