[package]
name = "parsync"
version = "0.1.0"
edition = "2021"
publish = false

[dependencies]
anyhow = "1"
base64 = "0.22"
clap = { version = "4", features = ["derive"] }
md5 = "0.7"
nix = "0.29"
serde = { version = "1", features = ["derive"] }
serde_json = "1"
