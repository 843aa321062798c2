[package]
name = "risq"
version = "0.1.0"
edition = "2021"
publish = false

[dependencies]
openssl = "=0.10.81"
ripemd = "=0.1.3"
rand = "=0.8.8"
actix-web = "=4.15.0"
serde = { version = "=1.0.229", features = ["derive"] }
