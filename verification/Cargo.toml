[package]
name = "debug_flat_call"
version = "0.1.0"
edition = "2021"
publish = false

[dependencies]
serde = { version = "1", features = ["derive"] }
zksync_basic_types = "*"
