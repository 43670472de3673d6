[package]
name = "mimic_ai"
version = "0.1.0"
edition = "2021"
publish = false

[dependencies]
serde_yaml = "=0.9.34"
serde = { version = "=1.0.229", features = ["derive"] }
serde_json = "=1.0.151"
clap = { version = "=4.6.7", features = ["derive"] }
dirs = "=7.0.0"
notify = "=8.2.0"
rmcp = { version = "=3.5.0", features = ["server", "macros", "transport-io"] }
schemars = "=1.2.2"
tokio = { version = "=1.53.2", features = ["macros", "rt"] }
