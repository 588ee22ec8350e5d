[package]
name = "cryptor"
version = "0.1.0"
edition = "2021"
publish = false

[dependencies]
aes-gcm = "*"
argon2 = "*"
base64 = "*"
getrandom = "*"
