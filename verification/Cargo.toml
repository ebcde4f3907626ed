[package]
name = "rospeek"
version = "0.1.0"
edition = "2021"
publish = false

[dependencies]
rayon = "*"
chrono = "*"
clap = { version = "*", features = ["derive"] }
csv = "*"
serde_json = "*"
rusqlite = { version = "*", features = ["bundled"] }
mcap = "*"
memmap2 = "*"
shellexpand = "*"
