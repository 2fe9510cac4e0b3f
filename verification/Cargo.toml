[package]
name = "regex_nfa"
version = "0.1.0"
edition = "2021"
publish = false

[dependencies]
lazy_static = "1"
serde = { version = "1", features = ["derive"] }
toml = "0.8"
