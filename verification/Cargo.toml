[package]
name = "himqtt"
version = "0.1.0"
edition = "2021"
publish = false

[dependencies]
rumqttd = "*"
bcrypt = "*"
uuid = { version = "1", features = ["v4"] }
tokio = { version = "1", features = ["full"] }
axum = "0.7"
tower-http = { version = "0.5", features = ["cors", "fs"] }
sqlx = { version = "0.7", default-features = false, features = ["runtime-tokio", "postgres", "chrono", "json", "migrate", "macros"] }
serde = { version = "1", features = ["derive"] }
serde_json = "1"
anyhow = "1"
tracing = "0.1"
tracing-subscriber = { version = "0.3", features = ["env-filter"] }
clap = { version = "4", features = ["derive"] }
config = "*"
chrono = { version = "0.4", features = ["serde"] }
sysinfo = "*"
futures-util = "0.3"
