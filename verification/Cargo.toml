[package]
name = "cheese_scraper"
version = "0.1.0"
edition = "2021"
publish = false

[dependencies]
scraper = "*"
reqwest = { version = "*", default-features = false, features = ["json", "rustls-tls"] }
serde = { version = "1", features = ["derive"] }
serde_json = "1"
anyhow = "1"
tokio = { version = "1", features = ["macros", "rt-multi-thread", "time"] }
tokio-retry = "*"
indicatif = "*"
once_cell = "1"
actix-web = { version = "4", default-features = false, features = ["macros"] }
actix-files = "*"
env_logger = "*"
log = "0.4"
webhook = "*"
