[package]
name = "tirra"
version = "0.1.0"
edition = "2021"
publish = false

[dependencies]
chacha20 = "=0.10.2"
poly1305 = "=0.9.1"
pbkdf2 = "=0.13.0"
sha2 = "=0.11.1"
rand = "=0.10.3"
chacha20poly1305 = "=0.11.0"
hkdf = "=0.13.0"
hmac = "=0.13.0"
scrypt = "=0.12.0"
chrono = "=0.4.45"
rusqlite = { version = "=0.41.1", features = ["bundled", "serialize", "fallible_uint"] }
rpassword = "=7.5.4"
serde = { version = "=1.0.229", features = ["derive"] }
bincode = "=1.3.3"
anyhow = "=1.0.104"
reqwest = { version = "=0.13.5", default-features = false, features = ["multipart"] }
