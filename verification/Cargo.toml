[package]
name = "ws_gate"
version = "0.1.0"
edition = "2021"
publish = false

[dependencies]
serde_json = "1"
tokio = { version = "1", features = ["net", "sync", "rt"] }
tokio-websockets = { version = "*", features = ["server", "sha1_smol"] }
futures-util = { version = "0.3", features = ["sink"] }
