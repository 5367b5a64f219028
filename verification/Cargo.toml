[package]
name = "wiki"
version = "0.1.0"
edition = "2021"
publish = false

[dependencies]
regex = "1"
sha2 = "0.10"
clap = { version = "4", features = ["derive"] }
rusqlite = { version = "*", features = ["bundled"] }
serde = { version = "1", features = ["derive"] }
serde_json = "1"
serde_yaml = "0.9"
walkdir = "2"
time = { version = "0.3", features = ["formatting", "macros"] }
reqwest = { version = "*", default-features = false, features = ["blocking", "json"] }

[dev-dependencies]
tempfile = "3"
