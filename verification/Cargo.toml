[package]
name = "tumongo"
version = "0.1.0"
edition = "2021"
publish = false

[dependencies]
bson = "2"
mongodb = "3"
futures-util = "0.3"
once_cell = "1"
serde = { version = "1", features = ["derive"] }
serde_json = "1"
tokio = { version = "1", features = ["rt-multi-thread", "macros", "time"] }
