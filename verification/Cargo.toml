[package]
name = "mailman"
version = "0.5.0"
edition = "2021"
publish = false

[dependencies]
argon2 = "0.5"
base64 = "0.22"
chacha20poly1305 = "0.10"
directories = "6"
eframe = { version = "0.33", default-features = false, features = ["default_fonts", "glow", "x11"] }
flate2 = "1"
rand = "0.8"
regex = "1"
reqwest = { version = "0.12", default-features = false, features = ["blocking", "multipart", "rustls-tls"] }
rusty-leveldb = "3"
serde = { version = "1", features = ["derive"] }
serde_json = "1"
walkdir = "2"
