[package]
name = "tacos_lyrics"
version = "0.1.0"
edition = "2021"
publish = false

[dependencies]
serde_json = "1"
ureq = { version = "2", features = ["json"] }
mpris = "2"
rusqlite = { version = "0.31", features = ["bundled"] }
libc = "0.2"
