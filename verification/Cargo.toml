[package]
name = "rust_bert"
version = "0.1.0"
edition = "2021"

[dependencies]
failure = "0.1"
serde = { version = "1.0", features = ["derive"] }
tch = "0.1"
