[package]
name = "task_store"
version = "0.1.0"
edition = "2021"
publish = false

[dependencies]
actix-web = "*"
actix-cors = "*"
serde = { version = "*", features = ["derive"] }
serde_json = "*"
