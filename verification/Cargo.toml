[package]
name = "task_tree"
version = "0.1.0"
edition = "2021"
publish = false

[dependencies]
chrono = "0.4"
chrono-tz = "*"
rrule = "*"
markdown = "1"
console = "*"
colored = "*"
thiserror = "*"
ics = "*"
serde = { version = "1", features = ["derive"] }
serde_json = "1"
serde_with = "*"
toml = "*"
clap = { version = "4", features = ["derive"] }
clap_complete = "4"
tokio = { version = "1", features = ["rt-multi-thread", "macros", "io-std", "net", "sync"] }
tower-lsp = "*"
axum = "*"
reqwest = { version = "*", default-features = false, features = ["rustls-tls"] }
dirs = "*"
open = "*"
