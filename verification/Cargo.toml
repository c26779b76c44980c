[package]
name = "io-pimdir"
version = "0.1.0"
edition = "2021"
publish = false

[dependencies]
anyhow = "1"
blake3 = { version = "1", features = ["pure"] }
clap = { version = "4", features = ["derive"] }
fs4 = "*"
humantime = "2"
log = "0.4"
pimalaya-cli = "*"
rusqlite = { version = "*", features = ["bundled"] }
schemars = { version = "1", features = ["derive"] }
serde = { version = "1", features = ["derive"] }
serde_json = "1"
sha2 = "0.10"

[dev-dependencies]
tempfile = "3"
