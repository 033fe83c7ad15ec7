[package]
name = "bookmark_tree"
version = "0.1.0"
edition = "2021"
publish = false

[dependencies]
url = "=2.5.8"
serde_json = "=1.0.154"
serde = { version = "=1.0.229", features = ["derive"] }
thiserror = "=1.0.69"
anyhow = "=1.0.104"
log = "=0.4.34"
axum = { version = "0.7", default-features = false, features = ["json"] }
redb = "2"
reqwest = { version = "0.12", default-features = false }
http-serde = "2"
