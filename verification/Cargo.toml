[package]
name = "sitemapper"
version = "0.1.0"
edition = "2021"
publish = false

[dependencies]
quick-xml = "0.38"
flate2 = "1"
url = "2"
anyhow = "1"
serde_json = "1"
clap = { version = "4", features = ["derive"] }
tokio = { version = "1", features = ["macros", "rt-multi-thread", "sync"] }
reqwest = { version = "0.12", default-features = false, features = ["rustls-tls"] }
