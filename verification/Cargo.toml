[package]
name = "llm_lzh"
version = "0.1.0"
edition = "2021"
publish = false

[dependencies]
memmap = "0.7"
rayon = "1"
serde = { version = "1", features = ["derive"] }
serde_json = "1"
