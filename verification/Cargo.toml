[package]
name = "dns"
version = "0.1.0"
edition = "2021"
publish = false

[dependencies]
tokio = { version = "*", features = ["full"] }
sqlx = { version = "*", features = ["runtime-tokio", "sqlite", "chrono", "migrate"] }
chrono = "*"
config = "*"
serde = { version = "*", features = ["derive"] }
uuid = { version = "*", features = ["v4"] }
tracing = "*"
tracing-subscriber = { version = "*", features = ["env-filter"] }
tracing-bunyan-formatter = "*"
