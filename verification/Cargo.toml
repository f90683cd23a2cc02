[package]
name = "githooks"
version = "0.1.0"
edition = "2021"
publish = false

[dependencies]
regex = "1"
roxmltree = "0.20"
git2 = { version = "0.19", default-features = false }
serde = "1"
serde_derive = "1"
serde_json = "1"
dirs = "5"
which = "6"
chrono = { version = "0.4", default-features = false, features = ["clock"] }
crossterm = "0.25"
tui = { version = "0.19", default-features = false, features = ["crossterm"] }
log = "0.4"
env_logger = { version = "0.10", default-features = false }
anyhow = "1"
