[package]
name = "musidex_daemon"
version = "0.1.0"
edition = "2021"
publish = false

[dependencies]
miniz_oxide = "*"
chrono = "*"
dateparser = "*"
rusqlite = { version = "*", features = ["bundled"] }
nanoserde = "*"
tungstenite = "*"
