[package]
name = "joc"
version = "0.1.0"
edition = "2021"
publish = false

[dependencies]
rand = "0.8"
serde = { version = "1", features = ["derive"] }
serde_json = "1"
anyhow = "1"
futures-util = { version = "0.3", features = ["sink"] }
tokio = { version = "1", features = ["macros", "rt-multi-thread"] }
tokio-tungstenite = { version = "0.26", features = ["rustls-tls-webpki-roots"] }
zip = { version = "2", default-features = false, features = ["deflate"] }
