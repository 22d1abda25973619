[package]
name = "dht"
version = "0.1.0"
edition = "2021"
publish = false

[dependencies]
anyhow = "*"
clap = { version = "*", features = ["derive"] }
env_logger = "*"
futures = "*"
log = "*"
rustyline = "*"
tarpc = { version = "*", features = ["full"] }
tokio = { version = "*", features = ["macros", "rt-multi-thread", "net", "time", "sync"] }
