[package]
name = "route_search"
version = "0.1.0"
edition = "2021"
publish = false

[dependencies]
rand = "*"
actix-web = "*"
sqlx = { version = "*", default-features = false, features = ["runtime-tokio", "postgres"] }
serde = { version = "*", features = ["derive"] }
chrono = "*"
anyhow = "*"
