[package]
name = "rustsocket_server"
version = "0.1.0"
edition = "2021"
publish = false

[dependencies]
quick-protobuf = "0.8"
tokio = { version = "0.2", features = ["full"] }
tokio-tungstenite = "0.11"
tungstenite = "0.11"
futures-util = { version = "0.3", features = ["sink"] }
specs = "0.16"
