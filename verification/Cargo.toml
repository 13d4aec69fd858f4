[package]
name = "subsink"
version = "0.1.5"
edition = "2021"
publish = false

[dependencies]
fuzzy-matcher = "*"
html-escape = "*"
regex = "*"
anyhow = "*"
console = "*"
dirs = "*"
indicatif = "*"
inquire = "*"
reqwest = { version = "0.12", default-features = false, features = ["rustls-tls"] }
serde = { version = "1", features = ["derive"] }
serde_json = "1"
tokio = { version = "1", features = ["macros", "rt-multi-thread"] }
walkdir = "2"
zip = { version = "*", default-features = false, features = ["deflate"] }
