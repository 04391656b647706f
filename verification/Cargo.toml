[package]
name = "bksync"
version = "0.1.0"
edition = "2021"
publish = false

[dependencies]
anyhow = "1"
aws-runtime = "1"
aws-sdk-s3 = { version = "1", features = ["behavior-version-latest"] }
aws-smithy-runtime-api = { version = "1", features = ["client"] }
chrono = "0.4"
clap = { version = "4", features = ["derive"] }
dirs = "*"
filetime = "0.2"
globset = "0.4"
indicatif = "0.17"
md-5 = "0.10"
notify = "8"
serde = { version = "1", features = ["derive"] }
serde_json = "1"
tokio = { version = "1", features = ["full"] }
toml = "0.8"
tracing = "0.1"
tracing-subscriber = { version = "0.3", features = ["env-filter"] }
walkdir = "2"
