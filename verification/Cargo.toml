[package]
name = "tchunk-pdf"
version = "0.1.0"
edition = "2021"
publish = false

[dependencies]
anyhow = "1"
clap = { version = "4", features = ["derive"] }
glob = "0.3"
indexmap = "2"
indicatif = "0.17"
lopdf = "0.36"
rayon = "1"
serde = { version = "1", features = ["derive"] }
serde_json = "1"
tiktoken-rs = "0.7"
