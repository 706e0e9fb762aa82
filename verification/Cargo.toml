[package]
name = "nwn"
version = "0.1.0"
edition = "2021"
publish = false

[dependencies]
dashmap = "=4.0.2"
futures = "0.3"
log = "0.4"
log-panics = "2"
regex = "=1.13.1"
ropey = "=1.6.1"
serde = { version = "1", features = ["derive"] }
serde_json = "1"
serde_regex = "1"
simple-logging = "2"
tokio = { version = "0.2", features = ["full"] }
tower-lsp = "=0.13.3"
