[package]
name = "git_sleipnir"
version = "0.1.0"
edition = "2021"
publish = false

[dependencies]
regex = "*"
natord = "*"
url = "*"
reqwest = { version = "*", default-features = false, features = ["stream"] }
tokio = { version = "*", features = ["full"] }
futures = "*"
bytes = "*"
log = "*"
env_logger = "*"
clap = { version = "*", features = ["derive"] }
