[package]
name = "continue_sync"
version = "0.1.0"
edition = "2021"
publish = false

[dependencies]
sha1 = "=0.10.7"
ignore = "=0.4.33"
tempfile = "=3.27.0"
homedir = "=0.3.6"
dirs = "=7.0.0"
rusqlite = { version = "=0.40.2", features = ["bundled"] }
ndarray = "=0.17.2"
serde = { version = "*", features = ["derive"] }
serde_json = "*"
