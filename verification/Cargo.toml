[package]
name = "bm25_engine"
version = "0.1.0"
edition = "2021"
publish = false

[dependencies]
rayon = "*"
serde = { version = "*", features = ["derive"] }
serde_derive = "*"
serde_json = "*"
axum = "*"
tokio = { version = "*", features = ["full"] }
tokenizers = "*"
mecab = "*"
