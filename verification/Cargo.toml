[package]
name = "legend_keeper_mcp"
version = "0.1.0"
edition = "2021"
publish = false

[dependencies]
serde = { version = "1", features = ["derive"] }
serde_json = "1"
comrak = { version = "*", default-features = false }
rand = "0.9"
chrono = { version = "0.4", default-features = false, features = ["clock", "std"] }
sha2 = "0.10"
flate2 = "1"
notify = "*"
rmcp = { version = "*", features = ["server", "macros", "transport-io"] }
tokio = { version = "1", features = ["macros", "rt-multi-thread", "io-std"] }
schemars = "1"
anyhow = "1"
thiserror = "2"
base64 = "0.22"
reqwest = { version = "0.12", default-features = false, features = ["rustls-tls"] }
