[package]
name = "uni_web"
version = "0.1.0"
edition = "2021"
publish = false

[dependencies]
actix = "0.13"
actix-broker = "0.4"
actix-web = "4"
actix-web-actors = "4"
bcrypt = "0.15"
chrono = "0.4"
dotenvy = "0.15"
futures = "0.3"
jsonwebtoken = "9"
serde = { version = "1", features = ["derive"] }
serde_json = "1"
sqlx = { version = "0.7", default-features = false, features = ["runtime-tokio", "sqlite"] }
