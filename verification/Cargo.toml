[package]
name = "nostr_pow"
version = "0.1.0"
edition = "2021"
publish = false

[dependencies]
anyhow = "1"
env_logger = "0.11"
log = "0.4"
nostr-sdk = "0.44"
rayon = "1"
serde_json = "1"
tokio = { version = "1", features = ["rt", "rt-multi-thread"] }
