[package]
name = "capbit"
version = "0.1.0"
edition = "2021"
publish = false

[dependencies]
fjall = "=2.11.2"
sha2 = "=0.10.9"
getrandom = "=0.2.17"
axum = "0.7"
tokio = { version = "1", features = ["rt-multi-thread", "macros", "net"] }
tower-http = { version = "0.5", features = ["cors", "trace"] }
serde = { version = "1", features = ["derive"] }
