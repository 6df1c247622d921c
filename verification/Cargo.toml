[package]
name = "rshx"
version = "0.1.0"
edition = "2021"
publish = false

[dependencies]
anstream = "*"
anstyle = "1"
clap = { version = "4", features = ["derive"] }
futures-util = "0.3"
humantime = "2"
indicatif = "*"
libc = "0.2"
serde = { version = "1", features = ["derive"] }
serde_json = "1"
tokio = { version = "1", features = ["full"] }
toml = "*"
