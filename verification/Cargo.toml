[package]
name = "kroki_preprocessor"
version = "0.1.0"
edition = "2021"
publish = false

[dependencies]
anyhow = "=1.0.104"
futures = "=0.3.34"
mdbook = "=0.4.52"
mdbook-preprocessor-boilerplate = "=0.1.2"
pulldown-cmark = "=0.13.4"
reqwest = { version = "=0.12.28", default-features = false }
serde = { version = "=1.0.229", features = ["derive"] }
serde_json = "=1.0.151"
tokio = { version = "=1.53.2", features = ["rt", "rt-multi-thread"] }
