[package]
name = "rust_auth_server"
version = "0.1.0"
edition = "2021"
publish = false

[dependencies]
jsonwebtoken = { version = "=11.1.0", default-features = false, features = ["rust_crypto"] }
base64 = "=0.23.1"
bcrypt = "=0.19.3"
chrono = "=0.4.45"
