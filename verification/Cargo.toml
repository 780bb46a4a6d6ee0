[package]
name = "term_freqs"
version = "0.1.0"
edition = "2021"
publish = false

[dependencies]
fst = { version = "0.4", features = ["levenshtein"] }
uuid = { version = "1", features = ["v4"] }
serde = { version = "1", features = ["derive"] }
serde_json = "1"
