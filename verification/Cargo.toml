[package]
name = "cloud_storage"
version = "0.1.0"
edition = "2021"
publish = false

[dependencies]
async-trait = "0.1"
axum = "0.6"
bcrypt = "0.15"
bson = "2"
chrono = { version = "0.4", features = ["serde"] }
dotenv = "0.15"
futures = "0.3"
jsonwebtoken = "8"
mongodb = "2"
serde = { version = "1", features = ["derive"] }
serde_json = "1"
serde_qs = "0.12"
time = "0.3"
tokio = { version = "1", features = ["full"] }
tower-cookies = "0.9"
tower-http = { version = "0.4", features = ["cors"] }
