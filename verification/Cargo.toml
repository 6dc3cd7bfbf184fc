[package]
name = "pi_server"
version = "0.1.0"
edition = "2021"
publish = false

[dependencies]
regex = "*"
chrono = "*"
anyhow = "*"
log = "*"
serde = { version = "*", features = ["derive"] }
serde_json = "*"
tokio = { version = "*", features = ["full"] }
futures-util = "*"
sqlx = { version = "*", default-features = false, features = ["runtime-tokio-rustls", "sqlite", "chrono"] }
reqwest = { version = "*", default-features = false, features = ["rustls-tls", "cookies"] }
trust-dns-proto = "*"
trust-dns-client = "*"
