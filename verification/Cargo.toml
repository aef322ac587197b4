[package]
name = "topsnek"
version = "0.1.0"
edition = "2021"
publish = false

[dependencies]
priority-queue = "1"
rand = "0.8"
serde = { version = "1", features = ["derive"] }
serde_json = "1"
bincode = "1"
itertools = "0.10"
rouille = "3"
html-escape = "0.2"
urlencoding = "2"
sanitize-filename = "0.4"
