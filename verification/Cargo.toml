[package]
name = "while_compiler"
version = "0.1.0"
edition = "2021"
publish = false

[dependencies]
clap = { version = "4", features = ["derive"] }
colored = "2"
pretty = "0.12"
serde = { version = "1", features = ["derive"] }
serde_json = "1"
