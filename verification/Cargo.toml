[package]
name = "kachet"
version = "0.1.0"
edition = "2021"
publish = false

[dependencies]
anyhow = "=1.0.104"
axum = { version = "=0.8.9", default-features = false, features = ["http1", "json", "query", "tokio", "ws"] }
clap = { version = "=4.6.7", default-features = false, features = ["std", "derive", "help"] }
flate2 = "=1.1.10"
mime_guess = "=2.0.5"
quick-xml = "=0.37.5"
rust-embed = "=8.13.0"
serde = { version = "=1.0.229", features = ["derive"] }
serde_json = "=1.0.154"
sqlx = { version = "=0.8.6", default-features = false, features = ["sqlite", "runtime-tokio"] }
tokio = { version = "=1.54.1", features = ["macros", "rt-multi-thread", "net", "time"] }
tower-http = { version = "=0.6.11", features = ["fs"] }
tracing-subscriber = { version = "=0.3.23", default-features = false, features = ["fmt"] }
typst = "=0.15.1"
typst-pdf = "=0.15.1"
typst-assets = { version = "=0.15.1", features = ["fonts"] }
