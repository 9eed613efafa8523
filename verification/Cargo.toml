[package]
name = "tethys"
version = "0.1.0"
edition = "2021"
publish = false

[dependencies]
tokio = { version = "*", features = ["rt-multi-thread", "macros", "net", "time", "io-util", "sync", "signal"] }
sqlx = { version = "*", default-features = false, features = ["runtime-tokio", "tls-rustls", "mysql", "chrono", "json", "derive"] }
reqwest = { version = "*", default-features = false, features = ["rustls-tls"] }
quick-xml = { version = "*", features = ["serialize"] }
serde = { version = "*", features = ["derive"] }
serde_json = "*"
chrono = { version = "*", features = ["serde"] }
dotenvy = "*"
once_cell = "*"
tokio-cron-scheduler = "*"
tracing = "*"
tracing-subscriber = { version = "*", features = ["env-filter"] }
