[package]
name = "get_bicho"
version = "0.1.0"
edition = "2021"
publish = false

[dependencies]
regex = "=1.13.1"
serde = { version = "1", features = ["derive"] }
serde_json = "1"
chrono = "0.4"
lazy_static = "1"
r2d2 = "0.8"
r2d2_sqlite = { version = "*", features = ["bundled"] }
rusqlite = { version = "*", features = ["bundled"] }
reqwest = "0.12"
scraper = "*"
tokio = { version = "1", features = ["macros", "rt-multi-thread", "sync"] }
