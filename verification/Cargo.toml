[package]
name = "crate_diff"
version = "0.1.0"
edition = "2021"
publish = false

[dependencies]
anyhow = "=1.0.104"
clap = { version = "=4.6.7", features = ["derive"] }
crates-index = { version = "=3.14.2", features = ["git", "git-https-reqwest"] }
reqwest = { version = "=0.13.5", features = ["blocking"] }
tempfile = "=3.27.0"
