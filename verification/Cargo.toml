[package]
name = "raur"
version = "0.1.0"
edition = "2021"
publish = false

[dependencies]
anyhow = "=1.0.104"
clap = { version = "=4.6.7", features = ["derive"] }
colored = "=3.1.1"
directories = "=6.0.0"
fs2 = "=0.4.3"
git2 = "=0.21.0"
petgraph = "=0.8.3"
reqwest = { version = "=0.12.28", default-features = false, features = ["json", "rustls-tls"] }
rss = "=2.1.2"
serde = { version = "=1.0.229", features = ["derive"] }
sysinfo = "=0.39.6"
tokio = { version = "=1.53.2", features = ["rt-multi-thread", "macros", "time"] }
