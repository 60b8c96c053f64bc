[package]
name = "wstf"
version = "0.1.0"
edition = "2021"
publish = false

[dependencies]
chrono = "=0.4.45"
clap = "=2.34.0"
csv = "=1.4.0"
indexmap = "=2.14.2"
ordered-float = { version = "=4.6.0", features = ["serde"] }
serde = { version = "=1.0.229", features = ["derive"] }
serde_json = "=1.0.151"
uuid = { version = "=1.27.0", features = ["serde"] }
