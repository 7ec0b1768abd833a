[package]
name = "rust_config_tree"
version = "0.1.0"
edition = "2021"
publish = false

[dependencies]
serde_json = "=1.0.154"
serde = { version = "=1.0.229", features = ["derive"] }
serde_yaml = "=0.9.34"
confique = "=0.4.0"
figment = { version = "=0.10.19", features = ["yaml", "toml", "json", "env"] }
schemars = "=1.2.3"
clap = { version = "=4.6.7", features = ["derive"] }
clap_complete = "=4.6.11"
dotenvy = "=0.15.7"
tracing = "=0.1.44"
