[package]
name = "openconstruct_catalog"
version = "0.1.0"
edition = "2021"
publish = false

[dependencies]
semver = { version = "=1.0.28", features = ["serde"] }
serde = { version = "=1.0.229", features = ["derive"] }
serde_json = "=1.0.154"
thiserror = "=1.0.69"
