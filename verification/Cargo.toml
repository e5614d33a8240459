[package]
name = "jra_scraper"
version = "0.1.0"
edition = "2021"
publish = false

[dependencies]
scraper = { version = "=0.13.0", features = ["deterministic"] }
encoding_rs = "=0.8.44"
regex = "=1.13.1"
chrono = { version = "=0.4.45", features = ["serde"] }
serde = { version = "=1.0.229", features = ["derive"] }
serde_json = "=1.0.154"
clap = { version = "=3.2.25", features = ["derive"] }
tokio = { version = "=1.54.1", features = ["macros", "rt-multi-thread"] }
reqwest = { version = "=0.11.27", default-features = false, features = ["rustls-tls"] }
