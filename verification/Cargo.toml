[package]
name = "chanman"
version = "0.1.0"
edition = "2021"
publish = false

[dependencies]
serde_json = "*"
serde = { version = "*", features = ["derive"] }
axum = { version = "*", features = ["ws"] }
tokio = { version = "*", features = ["rt-multi-thread", "macros", "net", "sync"] }
futures-util = "*"
tower-http = { version = "*", features = ["trace"] }
uuid = { version = "*", features = ["v4"] }
