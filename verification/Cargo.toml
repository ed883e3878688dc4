[package]
name = "cookie"
version = "0.1.0"
edition = "2021"
publish = false

[dependencies]
sha2 = "0.10"
hmac = "0.12"
serde_json = "1"
constant_time_eq = "*"
