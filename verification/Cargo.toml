[package]
name = "rustmvc"
version = "0.1.0"
edition = "2021"
publish = false

[dependencies]
jsonwebtoken = { version = "=11.1.0", features = ["rust_crypto"] }
chrono = "=0.4.45"
actix-web = "=4.15.0"
askama = "=0.16.1"
mime_guess = "=2.0.5"
