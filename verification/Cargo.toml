[package]
name = "nari"
version = "0.1.0"
edition = "2021"
publish = false

[dependencies]
ron = "*"
serde = { version = "*", features = ["derive"] }
file-lock = "*"
notify = "*"
tokio = { version = "*", features = ["rt-multi-thread", "macros", "sync", "time"] }
