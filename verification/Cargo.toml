[package]
name = "gaeb-toolkit"
version = "0.1.0"
edition = "2021"
publish = false

[dependencies]
anyhow = "1"
axum = { version = "0.8", features = ["multipart"] }
base64 = "=0.22.1"
chrono = "=0.4.45"
clap = { version = "4", features = ["derive"] }
hmac = "=0.12.1"
image = { version = "=0.25.10", default-features = false, features = ["png", "jpeg"] }
lettre = { version = "0.11", default-features = false, features = ["builder", "hostname", "smtp-transport", "rustls-tls"] }
printpdf = "0.7"
quick-xml = "=0.37.5"
regex = "=1.13.1"
reqwest = { version = "0.12", default-features = false, features = ["rustls-tls", "json"] }
rusqlite = { version = "0.32", features = ["bundled"] }
rust_decimal = { version = "=1.43.0", features = ["serde"] }
scraper = { version = "=0.22.0", default-features = false }
serde = { version = "1", features = ["derive"] }
serde_json = "=1.0.154"
sha2 = "=0.10.9"
tempfile = "3"
tokio = { version = "1", features = ["fs", "macros", "net", "rt-multi-thread", "sync", "time"] }
tower-http = { version = "0.6", features = ["fs", "set-header", "trace"] }
tracing = "0.1"
tracing-subscriber = { version = "0.3", features = ["env-filter"] }
uuid = { version = "1", features = ["v4"] }
zip = { version = "2", default-features = false, features = ["deflate"] }
