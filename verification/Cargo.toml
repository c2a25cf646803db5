[package]
name = "yt_transcript"
version = "0.1.0"
edition = "2021"
publish = false

[dependencies]
serde_json = "*"
html-escape = "*"
serde = { version = "*", features = ["derive"] }
reqwest = { version = "*", default-features = false }
tokio = { version = "*", features = ["macros", "rt-multi-thread"] }
