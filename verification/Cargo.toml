[package]
name = "queries"
version = "0.1.0"
edition = "2021"
publish = false

[dependencies]
anyhow = "1"
async-global-executor = "*"
dashmap = "*"
futures = "0.3"
rustc-hash = "2"
rustc-stable-hash = "*"
serde = { version = "1", features = ["derive"] }
serde_json = "1"
smallvec = "1"
trait-variant = "*"
