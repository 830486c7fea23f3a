[package]
name = "dxl_tables"
version = "0.1.0"
edition = "2021"
publish = false

[dependencies]
anyhow = "*"
clap = "*"
convert_case = "*"
futures-util = "*"
indicatif = "*"
prettytable-rs = "*"
reqwest = { version = "*", default-features = false }
ron = "*"
scraper = "*"
serde = { version = "*", features = ["derive"] }
serde_yaml = "*"
tokio = { version = "*", features = ["macros", "rt-multi-thread"] }
tokio-stream = "*"
