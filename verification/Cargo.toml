[package]
name = "multi_bomb_test"
version = "0.1.0"
edition = "2021"
publish = false

[dependencies]
axum = { version = "0.6", features = ["ws"] }
rand = "0.8"
tokio = { version = "1", features = ["full"] }
tower-http = { version = "0.4", features = ["fs"] }
