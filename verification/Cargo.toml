[package]
name = "bottlecache"
version = "0.1.0"
edition = "2021"
publish = false

[dependencies]
zip = "=8.6.0"
octocrab = "=0.47.1"
tokio = { version = "=1.53.2", features = ["macros", "rt-multi-thread"] }
