[package]
name = "mail_proxy"
version = "0.1.0"
edition = "2021"
publish = false

[dependencies]
ipnet = "2"
argon2 = "*"
password-hash = "*"
serde = { version = "1", features = ["derive"] }
