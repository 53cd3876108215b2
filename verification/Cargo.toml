[package]
name = "built_different"
version = "0.1.0"
edition = "2021"
publish = false

[dependencies]
anyhow = "=1.0.104"
clap = { version = "=4.6.7", features = ["derive"] }
compress-tools = "=0.16.1"
diffy = { version = "=0.5.2", features = ["std"] }
reqwest = "=0.13.5"
tokio = { version = "=1.54.1", features = ["rt-multi-thread"] }
walkdir = "=2.5.0"
