[package]
name = "sakuin"
version = "0.1.0"
edition = "2021"
publish = false

[dependencies]
clap = { version = "4", features = ["derive"] }
env_logger = "0.11"
git2 = { version = "0.20", default-features = false }
ignore = "0.4"
libc = "0.2"
log = "0.4"
notify = "*"
parking_lot = "0.12"
rayon = "1"
serde = { version = "1", features = ["derive"] }
serde_json = "1"
tantivy = "*"
toml = "*"
