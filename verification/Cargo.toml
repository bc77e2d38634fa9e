[package]
name = "micrio"
version = "0.1.0"
edition = "2021"
publish = false

[dependencies]
semver = "1"
anyhow = "*"
bytes = "*"
clap = { version = "*", features = ["derive"] }
crates-index = "*"
crates_io_api = "*"
env_logger = "*"
git2 = { version = "*", default-features = false }
http = "*"
log = "*"
pathdiff = "*"
reqwest = { version = "*", default-features = false }
serde_json = "*"
tokio = { version = "*", features = ["rt-multi-thread", "sync"] }
