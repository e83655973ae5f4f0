[package]
name = "tidy-json"
version = "0.1.0"
edition = "2021"
publish = false

[dependencies]
anyhow = "1"
clap = { version = "4", features = ["derive"] }
colored = "2"
env_logger = "0.11"
glob = "0.3"
ignore = "0.4"
log = "0.4"
rand = "0.8"
rayon = "1"
serde = { version = "1", features = ["derive"] }
serde_json = { version = "1", features = ["preserve_order"] }
thiserror = "1"
