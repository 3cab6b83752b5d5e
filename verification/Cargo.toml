[package]
name = "corekeys-protocol"
version = "0.1.0"
edition = "2021"
publish = false

[dependencies]
sha2 = "0.10"
minicbor = { version = "0.25", features = ["derive", "alloc"] }
