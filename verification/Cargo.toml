[package]
name = "lezeh"
version = "0.1.0"
edition = "2021"
publish = false

[dependencies]
anyhow = "1"
clap = "2"
env_logger = "0.9"
erased-serde = "0.3"
futures = "0.3"
ghub = "*"
handlebars = "4"
indoc = "1"
itertools = "0.10"
petgraph = "0.6"
phab-lib = "*"
postgres = "0.19"
postgres-types = "0.2"
reqwest = "0.11"
rust-embed = "6"
serde = { version = "1", features = ["derive"] }
serde_json = "1"
serde_yaml = "0.8"
slog = "2"
slog-async = "2"
slog-envlogger = "2"
slog-term = "2"
thiserror = "1"
tokio = { version = "1", features = ["macros", "rt-multi-thread", "time"] }
url = "2"
uuid = "1"
