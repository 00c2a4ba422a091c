[package]
name = "js_watcher"
version = "0.1.0"
edition = "2021"
publish = false

[dependencies]
crc32fast = "1"
dashmap = "5"
glob = "0.3"
serde_json = "1"
clap = { version = "4", features = ["derive"] }
ctrlc = "3"
shellwords = "1"
owo-colors = "4"
