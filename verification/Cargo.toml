[package]
name = "reqstudio"
version = "0.1.0"
edition = "2021"
publish = false

[dependencies]
uuid = { version = "*", features = ["v4"] }
tokio = { version = "*", features = ["rt-multi-thread", "macros", "sync", "time"] }
reqwest = { version = "*", default-features = false, features = ["multipart"] }
serde = { version = "*", features = ["derive"] }
serde_json = "*"
