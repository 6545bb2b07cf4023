[package]
name = "tiptoe"
version = "0.1.0"
edition = "2021"
publish = false

[dependencies]
rand = "=0.8.8"
rand_chacha = "=0.3.1"
serde = { version = "=1.0.229", features = ["derive"] }
serde_json = "=1.0.151"
tokio = { version = "=1.53.2", features = ["rt-multi-thread", "macros", "time", "sync", "net"] }
axum = "=0.7.9"
reqwest = { version = "=0.12.28", default-features = false, features = ["json"] }
anyhow = "=1.0.104"
