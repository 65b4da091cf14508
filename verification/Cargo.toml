[package]
name = "compressor"
version = "0.1.0"
edition = "2021"
publish = false

[dependencies]
ahash = "0.8"
clap = { version = "4", features = ["derive"] }

[dev-dependencies]
rand = "0.9"
