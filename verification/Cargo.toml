[package]
name = "emoji_stat"
version = "0.1.0"
edition = "2021"
publish = false

[dependencies]
clap = { version = "*", features = ["derive"] }
emojis = "*"
unicode-segmentation = "*"
