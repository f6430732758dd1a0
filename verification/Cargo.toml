[package]
name = "rose_update"
version = "0.1.0"
edition = "2021"
publish = false

[dependencies]
bitar = { version = "=0.15.0", features = ["compress", "zstd-compression"] }
tokio = { version = "=1.53.2", features = ["full"] }
reqwest = { version = "=0.13.5", default-features = false, features = ["rustls", "json"] }
anyhow = "*"
serde = { version = "*", features = ["derive"] }
serde_json = "*"
clap = { version = "*", features = ["derive"] }
futures-util = "=0.3.34"
