[package]
name = "mapsdk"
version = "0.1.0"
edition = "2021"
publish = false

[dependencies]
priority-queue = "*"
dashmap = "*"

[dependencies.moka]
version = "*"
default-features = false
features = ["sync"]
