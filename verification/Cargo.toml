[package]
name = "dense_index"
version = "0.1.0"
edition = "2021"
publish = false

[dependencies]
dashmap = "*"
half = "*"
serde = { version = "*", features = ["derive"] }
tokio = { version = "*", features = ["rt-multi-thread", "macros"] }
futures = "*"
