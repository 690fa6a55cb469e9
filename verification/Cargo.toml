[package]
name = "external-dns-sdk"
version = "0.1.0"
edition = "2021"
publish = false

[dependencies]
url = "2"
kubizone-common = "*"
serde = { version = "1", features = ["derive"] }
serde_json = "1"
thiserror = "1"
reqwest = { version = "0.12", default-features = false, features = ["json"] }
axum = "0.7"
tokio = { version = "1", features = ["macros", "rt-multi-thread", "net", "signal", "sync"] }
tracing = "0.1"
async-trait = "0.1"
