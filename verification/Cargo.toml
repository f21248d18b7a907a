[package]
name = "item_catalog"
version = "0.1.0"
edition = "2021"
publish = false

[dependencies]
actix-web = { version = "4", default-features = false, features = ["macros"] }
actix-files = "0.6"
actix-multipart = "0.6"
futures-util = "0.3"
tokio = { version = "1", features = ["fs", "macros", "rt-multi-thread"] }
chrono = "0.4"
image = { version = "0.24", default-features = false, features = ["jpeg", "png"] }
mime_guess = "2"
serde = { version = "1", features = ["derive"] }
askama = "0.12"
rust-embed = "8"
env_logger = "0.10"
sqlx = { version = "0.7", default-features = false, features = ["sqlite", "runtime-tokio"] }
