[package]
name = "panacea"
version = "0.1.0"
edition = "2021"
publish = false

[dependencies]
tfhe = "*"
tfhe-csprng = "*"
dyn-stack = "*"
rand = "0.8"
rayon = "1"
serde = { version = "1", features = ["derive"] }
serde_json = "1"
clap = { version = "4", features = ["derive"] }
