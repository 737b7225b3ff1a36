[package]
name = "rmote"
version = "0.1.0"
edition = "2021"
publish = false

[dependencies]
anyhow = "1"
clap = { version = "4", features = ["derive", "env"] }
notify = "6"
ssh2 = "0.9"
