[package]
name = "drocsid"
version = "0.1.0"
edition = "2021"
publish = false

[dependencies]
chrono = "*"
crossterm = "*"
ratatui = "*"
tokio = { version = "*", features = ["rt-multi-thread", "net", "io-util", "sync", "time", "macros"] }
tracing = "*"
tracing-subscriber = { version = "*", features = ["env-filter", "json"] }
thiserror = "*"
dotenvy = "*"
rusqlite = { version = "*", features = ["bundled"] }
