[package]
name = "gitflex"
version = "0.1.0"
edition = "2021"
publish = false

[dependencies]
git2 = { version = "*", default-features = false }
rand = "0.9"
ratatui = "*"
regex = "1"
sqlx = { version = "0.8", default-features = false, features = ["sqlite", "runtime-tokio"] }
thiserror = "2"
tokio = { version = "1", features = ["rt"] }
tui-input = "*"
clap = { version = "4", features = ["derive"] }
