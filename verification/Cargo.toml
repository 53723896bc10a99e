[package]
name = "partdl"
version = "0.1.0"
edition = "2021"
publish = false

[dependencies]
clap = "4"
futures = "0.3"
indicatif = "*"
reqwest = { version = "*", default-features = false }
tokio = { version = "1", features = ["fs", "io-util", "macros", "rt-multi-thread"] }
