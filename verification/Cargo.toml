[package]
name = "spellmut"
version = "0.1.0"
edition = "2021"
publish = false

[dependencies]
dashmap = "*"
zspell = "*"
serde = { version = "*", features = ["derive"] }
serde_json = "*"
rayon = "*"
humantime = "*"
