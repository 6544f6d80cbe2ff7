[package]
name = "lesspass"
version = "0.1.0"
edition = "2021"
publish = false

[dependencies]
pbkdf2 = "*"
hmac = "*"
sha2 = "*"
clap = { version = "*", features = ["derive"] }
rpassword = "*"
