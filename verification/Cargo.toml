[package]
name = "tatsoryk_server"
version = "0.1.0"
edition = "2021"
publish = false

[dependencies]
rand = "*"
websocket = { version = "*", default-features = false, features = ["sync"] }
ctrlc = "*"
clap = "*"

[dev-dependencies]
serde_json = "*"
