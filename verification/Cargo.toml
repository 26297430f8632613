[package]
name = "chinese_search_engine"
version = "0.1.0"
edition = "2021"
publish = false

[dependencies]
clap = { version = "4", features = ["derive"] }
jieba-rs = { version = "0.6", features = ["tfidf", "textrank"] }
regex = "1"
