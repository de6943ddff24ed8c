[package]
name = "seedo"
version = "0.1.0"
edition = "2021"
publish = false

[dependencies]
shlex = "*"
anyhow = "*"
clap = { version = "*", features = ["derive"] }
crossbeam-channel = "*"
ignore = "*"
notify = "*"
serde = { version = "*", features = ["derive"] }
toml = "*"
tracing = "*"
tracing-subscriber = "*"
