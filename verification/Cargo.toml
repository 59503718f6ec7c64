[package]
name = "asm_engine"
version = "0.1.0"
edition = "2021"
publish = false

[dependencies]
sha2 = "0.10"
hex = "0.4"
rand = "0.8"
serde = { version = "1", features = ["derive"] }
serde_json = "1"
bincode = "1.3"
toml = "0.8"
csv = "1"
rusqlite = { version = "0.31", features = ["bundled"] }
