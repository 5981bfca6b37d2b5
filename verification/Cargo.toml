[package]
name = "rtdb"
version = "0.1.0"
edition = "2021"
publish = false

[dependencies]
byteorder = "1"
fast-float = "0.2"
fnv = "1"
sha2 = "0.10"
hex = "0.4"
chrono = "0.4"
tokio = { version = "1", features = ["full"] }
serde = { version = "1", features = ["derive"] }
serde_json = "1"
serde_yaml = "0.9"
axum = "0.5"
rustyline = "10"
