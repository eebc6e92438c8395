[package]
name = "voyager"
version = "0.2.0"
edition = "2021"
publish = false

[dependencies]
anyhow = "=1.0.104"
futures = "=0.3.34"
futures-timer = "=3.0.4"
rand = "=0.8.8"
reqwest = { version = "=0.11.27", default-features = false, features = ["rustls-tls"] }
reqwest-middleware = "=0.2.5"
robotstxt = "=0.3.0"
scraper = "=0.12.0"
thiserror = "=1.0.69"

[dev-dependencies]
http = "=0.2.12"
