[package]
name = "tier_cache"
version = "0.1.0"
edition = "2021"
publish = false

[dependencies]
anyhow = "1"
tokio = { version = "1", features = ["fs", "rt", "rt-multi-thread", "macros"] }
tracing = "0.1"
