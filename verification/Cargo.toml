[package]
name = "cube_shuffle"
version = "0.1.0"
edition = "2021"
publish = false

[dependencies]
rand = "0.8"
sha3 = "0.10"
serde = { version = "1", features = ["derive"] }
serde_json = "1"
serde_yaml = "0.9"
clap = { version = "3", features = ["derive"] }
parse-display = "0.5"

[dev-dependencies]
itertools = "0.10"
