[package]
name = "hn_cli"
version = "0.1.0"
edition = "2021"
publish = false

[dependencies]
chrono = "0.4"
clap = { version = "4", features = ["derive"] }
colored = "2"
futures = "0.3"
html2text = "*"
reqwest = { version = "0.12", default-features = false, features = ["json", "rustls-tls"] }
serde = { version = "1", features = ["derive"] }
serde_json = "1"
terminal_size = "*"
tokio = { version = "1", features = ["macros", "rt-multi-thread"] }
