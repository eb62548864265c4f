[package]
name = "provence"
version = "0.1.0"
edition = "2021"
publish = false

[dependencies]
candle-core = "=0.11.1"
candle-nn = "=0.11.1"
candle-transformers = "=0.11.1"
either = "=1.19.0"
punkt_n = "*"
tokenizers = { version = "=0.23.2", default-features = false, features = ["fancy-regex"] }
