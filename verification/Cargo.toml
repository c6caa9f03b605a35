[package]
name = "prep_appointments"
version = "0.1.0"
edition = "2021"
publish = false

[dependencies]
actix-web = "4"
actix-files = "0.6"
actix-session = { version = "*", features = ["cookie-session"] }
serde = { version = "1", features = ["derive"] }
serde_json = "1"
csv = "1"
tokio = { version = "1", features = ["macros", "rt-multi-thread"] }
rand = "0.8"
chrono = "0.4"
