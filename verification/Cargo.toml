[package]
name = "dirsync"
version = "0.1.0"
edition = "2021"
publish = false

[dependencies]
anyhow = "1"
candid = "*"
clap = { version = "4", features = ["derive"] }
futures = "0.3"
ic-agent = "*"
mime_guess = "2"
serde = { version = "1", features = ["derive"] }
tokio = { version = "1", features = ["rt-multi-thread", "macros"] }
walkdir = "2"
