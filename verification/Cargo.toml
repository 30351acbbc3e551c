[package]
name = "tree_rust"
version = "0.1.0"
edition = "2021"
publish = false

[dependencies]
atty = "0.2"
chrono = "0.4"
clap = { version = "4", features = ["derive"] }
colored = "2"
glob = "0.3"
serde = { version = "1", features = ["derive"] }
serde_json = "1"
