[package]
name = "cold_tier"
version = "0.1.0"
edition = "2021"
publish = false

[dependencies]
as-any = "0.3"
async-trait = "0.1"
backon = "1"
chrono = { version = "0.4", default-features = false, features = ["std", "clock"] }
futures = "0.3"
log = "0.4"
serde = { version = "1", features = ["derive"] }
serde_json = "1"
tokio = { version = "1", features = ["rt", "sync", "time"] }
uuid = { version = "1", features = ["v4", "v7"] }
