[package]
name = "todo"
version = "0.1.0"
edition = "2021"
publish = false

[dependencies]
anyhow = "*"
build-time = "*"
clap = { version = "*", features = ["derive", "env"] }
comfy-table = "*"
dialoguer = "*"
log = "*"
tracing = "*"
tracing-subscriber = "*"
