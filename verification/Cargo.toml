[package]
name = "tweet_archive_to_markdown"
version = "0.1.0"
edition = "2021"
publish = false

[dependencies]
chrono = "0.4"
clap = { version = "4", features = ["derive"] }
clap_complete = "4"
serde_json = "1"
twitter-archive = "*"
zip = { version = "*", default-features = false, features = ["deflate"] }
