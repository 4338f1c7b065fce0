[package]
name = "uptime_monitor"
version = "0.1.0"
edition = "2021"
publish = false

[dependencies]
actix-web = "*"
rusqlite = { version = "*", features = ["bundled"] }
serde = { version = "*", features = ["derive"] }
serde_json = "*"
serde_yml = "*"
