[package]
name = "pwgram"
version = "0.1.0"
edition = "2021"
publish = false

[dependencies]
rand = "0.8"
unicode-segmentation = "1"
serde = { version = "1", features = ["derive"] }
serde-lexpr = "0.1"
clap = { version = "3.2", features = ["derive"] }
