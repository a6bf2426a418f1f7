[package]
name = "catastrophic_ls"
version = "0.1.0"
edition = "2021"
publish = false

[dependencies]
env_logger = "0.11"
tokio = { version = "1", features = ["full"] }
tower-lsp = "0.20"
