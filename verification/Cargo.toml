[package]
name = "llm_scratch_rs"
version = "0.1.0"
edition = "2021"
publish = false

[dependencies]
anyhow = "1"
candle-core = "*"
candle-nn = "*"
mimalloc = { version = "*", default-features = false }
png = "*"
rand = "*"
regex-lite = "0.1"
reqwest = { version = "*", default-features = false, features = ["blocking"] }
serde = { version = "1", features = ["derive"] }
serde_json = "1"
