[package]
name = "rsincronlib"
version = "0.1.0"
edition = "2021"
publish = false

[dependencies]
inotify = "0.10"
walkdir = "2"
tokio = { version = "1", features = ["rt-multi-thread", "macros", "time", "sync"] }
futures = "0.3"
clap = { version = "4", features = ["derive"] }
figment = { version = "0.10", features = ["toml"] }
xdg = "2"
serde = { version = "1", features = ["derive"] }
tracing = "0.1"
tracing-subscriber = { version = "0.3", features = ["env-filter"] }

[dev-dependencies]
tempfile = "3"
shell-words = "1"
