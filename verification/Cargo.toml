[package]
name = "propaganda"
version = "0.1.0"
edition = "2021"
publish = false

[dependencies]
anyhow = "1"
async-std = { version = "1", features = ["attributes"] }
async-trait = "0.1"
bincode = "1"
serde = { version = "1", features = ["derive"] }
serde_json = "1"
sled = "0.34"
sqlx = { version = "0.7", default-features = false, features = ["runtime-async-std", "sqlite"] }
surf = { version = "2", default-features = false, features = ["h1-client-rustls"] }
tide = "0.16"
xactor = "0.7"
