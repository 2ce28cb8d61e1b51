[package]
name = "dioxus-workbench"
version = "0.1.0"
edition = "2021"
publish = false

[dependencies]
serde = { version = "1", features = ["derive"] }
serde_json = "1"
tracing = "0.1"
futures-timer = "3"
dioxus = { version = "0.7" }
