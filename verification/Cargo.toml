[package]
name = "tomato_exporter"
version = "0.1.0"
edition = "2021"
publish = false

[dependencies]
clap = "*"
futures = "*"
reqwest = { version = "*", default-features = false }
serde = { version = "*", features = ["derive"] }
serde_json = "*"
tokio = { version = "*", features = ["macros", "rt-multi-thread"] }
url = "*"
