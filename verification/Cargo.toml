[package]
name = "emoji_compress"
version = "0.1.0"
edition = "2021"
publish = false

[dependencies]
emojis = "0.5"
strip-ansi-escapes = "0.1"
edit-distance = "2"
