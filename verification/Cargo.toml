[package]
name = "webr_bundle"
version = "0.1.0"
edition = "2021"
publish = false

[dependencies]
flate2 = "*"
tokio = { version = "*", features = ["macros", "rt-multi-thread", "fs", "io-util", "sync", "time"] }
reqwest = { version = "*", default-features = false, features = ["rustls-tls"] }
futures = "*"
clap = { version = "*", features = ["derive"] }
serde = { version = "*", features = ["derive"] }
serde_json = "*"
actix-web = "*"
actix-files = "*"
env_logger = "*"
log = "*"
colored = "*"
ignore = "*"
tar = "*"
url = "*"
