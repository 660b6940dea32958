[package]
name = "keywarden"
version = "0.1.0"
edition = "2021"
publish = false

[dependencies]
async-ssh2-tokio = "*"
tokio = { version = "*", features = ["rt", "macros"] }
