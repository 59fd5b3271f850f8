[package]
name = "git_glance"
version = "0.1.0"
edition = "2021"
publish = false

[dependencies]
anyhow = "*"
chrono = "=0.4.45"
clap = { version = "*", features = ["derive"] }
colored = "*"
git2 = "*"
indicatif = "*"
openai-api-rs = "=10.0.2"
serde = { version = "*", features = ["derive"] }
serde_json = "=1.0.151"
tokio = { version = "*", features = ["rt", "macros"] }
