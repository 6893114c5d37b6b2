[package]
name = "workflow"
version = "0.1.0"
edition = "2021"
publish = false

[dependencies]
siphasher = "0.3"
serde = { version = "1", features = ["derive"] }
serde_json = "1"
clap = { version = "4", features = ["derive"] }
inquire = "*"
crossterm = "*"
rocksdb = "*"
tantivy = "*"
