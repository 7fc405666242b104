[package]
name = "ergodic"
version = "0.1.0"
edition = "2021"
publish = false

[dependencies]
axum = "*"
crossbeam = "*"
crossbeam-channel = "*"
serde = { version = "*", features = ["derive"] }
tokio = { version = "*", features = ["macros", "net", "rt-multi-thread"] }
