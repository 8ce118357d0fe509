[package]
name = "pr_stats"
version = "0.1.0"
edition = "2021"
publish = false

[dependencies]
anyhow = "=1.0.104"
chrono = "=0.4.45"
octocrab = "=0.44.1"
tabled = "=0.22.0"
tokio = { version = "=1.53.2", features = ["macros", "rt"] }
