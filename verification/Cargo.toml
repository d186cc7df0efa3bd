[package]
name = "code_chunks"
version = "0.1.0"
edition = "2021"
publish = false

[dependencies]
clap = "2.34"
serde = { version = "1", features = ["derive"] }
serde_json = "1"
walkdir = "2"
tokio = { version = "1", features = ["rt-multi-thread", "macros"] }
thirtyfour = "*"
warp = "0.3"
