[package]
name = "sitecrawl"
version = "0.1.0"
edition = "2021"
publish = false

[dependencies]
url = "*"
regex = "*"
scraper = "*"
reqwest = { version = "*", default-features = false }
tokio = { version = "*", features = ["macros", "rt-multi-thread"] }
rusqlite = { version = "*", features = ["bundled"] }
chrono = "*"
