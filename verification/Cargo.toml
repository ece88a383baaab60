[package]
name = "admin_auth"
version = "0.1.0"
edition = "2021"
publish = false

[dependencies]
rsa = "0.9"
base64 = "0.22"
bcrypt = "0.15"
jsonwebtoken = "9"
serde = { version = "1", features = ["derive"] }
serde_json = "1"
tokio = { version = "1", features = ["rt-multi-thread", "macros", "net"] }
axum = "0.6"
sqlx = { version = "0.6", default-features = false, features = ["postgres", "runtime-tokio-rustls", "chrono"] }
chrono = "0.4"
dotenvy = "0.15"
anyhow = "1"

[dev-dependencies]
rand = "0.8"
