[package]
name = "php_downloader"
version = "0.1.0"
edition = "2021"
publish = false

[dependencies]
anyhow = "*"
bzip2 = "*"
chrono = "*"
clap = { version = "*", features = ["derive"] }
colored = "*"
flate2 = "*"
futures = "*"
indicatif = "*"
reqwest = { version = "*", default-features = false, features = ["rustls-tls", "json"] }
serde = { version = "*", features = ["derive"] }
serde_json = "*"
tar = "*"
tempfile = "*"
tokio = { version = "*", features = ["macros", "rt-multi-thread"] }
walkdir = "*"
xz = "*"
