[package]
name = "solstice"
version = "0.1.0"
edition = "2021"
publish = false

[dependencies]
serde = { version = "=1.0.229", features = ["derive"] }
serde_json = "=1.0.154"
shellexpand = "=3.1.2"
clap = { version = "=4.6.7", features = ["derive"] }
dashmap = "=6.2.1"
regex = "=1.13.1"
tokio = { version = "=1.54.1", default-features = false, features = ["rt-multi-thread", "macros", "fs"] }
foundry-compilers = { version = "*", default-features = false }
