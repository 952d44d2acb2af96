[package]
name = "reversi_engine"
version = "0.1.0"
edition = "2021"
publish = false

[dependencies]
http-body-util = "0.1"
serde = { version = "1", features = ["derive"] }
serde_json = "1"
tokio = { version = "1", features = ["macros", "rt-multi-thread"] }
vercel_runtime = "*"
