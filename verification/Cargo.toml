[package]
name = "crypto_practices"
version = "0.1.0"
edition = "2021"
publish = false

[dependencies]
aes = "0.8"
hex = "0.4"
pbkdf2 = { version = "0.12", features = ["hmac"] }
sha2 = "0.10"
rand = "0.8"
serde = { version = "1", features = ["derive"] }
wasm-bindgen = "0.2"
serde-wasm-bindgen = "0.6"
