[package]
name = "pcb-zen-core"
version = "0.4.0"
edition = "2021"
publish = false

[dependencies]
anyhow = "=1.0.104"
ariadne = "=0.6.0"
dirs = "=7.0.0"
globset = "=0.4.21"
semver = { version = "=1.0.28", features = ["serde"] }
serde = { version = "=1.0.229", features = ["derive"] }
serde_json = "=1.0.154"
starlark = "=0.14.2"
starlark_syntax = "=0.14.2"
thiserror = "=2.0.21"
toml = "=1.1.8"
url = "=2.5.8"
walkdir = "=2.5.0"
