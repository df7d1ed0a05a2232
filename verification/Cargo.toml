[package]
name = "crawler"
version = "0.1.0"
edition = "2021"
publish = false

[dependencies]
scraper = "*"
tokio = { version = "*", features = ["macros", "rt-multi-thread", "sync", "time", "fs", "io-util"] }
reqwest = { version = "*", default-features = false }
clap = { version = "*", features = ["derive"] }
