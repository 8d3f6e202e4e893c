[package]
name = "annealer"
version = "0.1.0"
edition = "2021"
publish = false

[dependencies]
malva = { version = "*", features = ["config_serde"] }
yaml_serde = "*"
serde = { version = "1", features = ["derive"] }
thiserror = "2"
clap = { version = "4", features = ["derive"] }

[dev-dependencies]
serde_json = "1"
