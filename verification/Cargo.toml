[package]
name = "storage"
version = "0.1.0"
edition = "2021"
publish = false

[dependencies]
argon2 = "*"
password-hash = { version = "*", features = ["getrandom"] }
jsonwebtoken = { version = "*", features = ["rust_crypto"] }
serde_json = "*"
sanitize-filename = "*"
uuid = "*"
chrono = "*"
axum = { version = "*", features = ["multipart"] }
tokio = { version = "*", features = ["rt-multi-thread", "macros", "net"] }
serde = { version = "*", features = ["derive"] }
