[package]
name = "concerto"
version = "0.1.0"
edition = "2021"
publish = false

[dependencies]
blake3 = "1"
semver-php = "*"
serde = { version = "1", features = ["derive"] }
serde_json = "1"
pubgrub = "0.3"
sha1_smol = "1"
safe_unzip = "*"
ratatui = "*"
reqwest = { version = "0.12", default-features = false, features = ["blocking", "rustls-tls"] }
