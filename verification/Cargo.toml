[package]
name = "summit_breeze"
version = "0.1.0"
edition = "2021"
publish = false

[dependencies]
dashmap = "6"
tower-lsp = "0.20"
tokio = { version = "1", features = ["rt-multi-thread", "macros", "io-std"] }
