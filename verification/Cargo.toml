[package]
name = "msgboard"
version = "0.1.0"
edition = "2021"
publish = false

[dependencies]
axum = "*"
tokio = { version = "*", features = ["rt", "macros", "net", "sync", "time"] }
tokio-stream = { version = "*", features = ["sync"] }
tower-http = { version = "*", features = ["fs"] }
envconfig = "*"
