[package]
name = "nomad_core"
version = "0.1.0"
edition = "2021"
publish = false

[dependencies]
bytes = "1"
hex = "0.4"
rmpv = "1"
rns-crypto = "*"
serde = { version = "1", features = ["derive"] }
thiserror = "2"
tokio = { version = "1", features = ["rt", "sync", "time", "macros"] }
tracing = "0.1"
