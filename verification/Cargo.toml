[package]
name = "quick-xml"
version = "0.1.0"
edition = "2021"
publish = false

[dependencies]
memchr = "2"
encoding_rs = "0.8"
serde = { version = "1", features = ["derive"] }
arbitrary = { version = "1", features = ["derive"] }
