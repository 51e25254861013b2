[package]
name = "loch"
version = "0.1.0"
edition = "2021"
publish = false

[dependencies]
anyhow = "=1.0.104"
clap = { version = "=4.6.7", features = ["derive"] }
csv = "=1.4.0"
gix = { version = "=0.85.0", default-features = false, features = ["max-performance-safe", "revision", "sha1", "auto-chain-error"] }
serde_json = "=1.0.154"
tempfile = "=3.27.0"
time = { version = "=0.3.55", features = ["formatting"] }
tokei = "=14.0.0"
