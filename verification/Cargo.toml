[package]
name = "task_explorer"
version = "0.1.0"
edition = "2021"
publish = false

[dependencies]
serde = { version = "1", features = ["derive"] }
serde_json = "1"
sysinfo = { version = "0.35", default-features = false, features = ["disk", "network", "system"] }
tokio = { version = "1", features = ["time"] }
winreg = "0.55"
