[package]
name = "rgb_anchor"
version = "0.1.0"
edition = "2021"
publish = false

[dependencies]
amplify = "=4.9.0"
commit_verify = "=0.12.1"
bp-core = "=0.12.0"
bp-consensus = "=0.12.0"
bp-dbc = "=0.12.0"
bp-seals = "=0.12.0"
strict_encoding = "=2.9.1"
hypersonic = { version = "=0.12.0", features = ["serde"] }
anyhow = "=1.0.104"
serde_yaml = "=0.9.34"
