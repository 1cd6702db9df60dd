[package]
name = "routefinder_api"
version = "0.1.0"
edition = "2021"
publish = false

[dependencies]
actix-web = "4"
rusqlite = { version = "*", features = ["bundled"] }
serde = { version = "1", features = ["derive"] }
serde_json = "1"
