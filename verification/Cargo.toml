[package]
name = "markdown_lab"
version = "0.1.0"
edition = "2021"
publish = false

[dependencies]
scraper = "*"
url = "*"
serde = { version = "*", features = ["derive"] }
serde_json = "*"
quick-xml = { version = "*", features = ["serialize"] }
rayon = "*"
thiserror = "*"
tokio = { version = "*", features = ["rt-multi-thread", "time"] }
reqwest = { version = "*", default-features = false }
