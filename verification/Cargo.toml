[package]
name = "json_parser_with_pest"
version = "0.1.0"
edition = "2021"
publish = false

[dependencies]
serde_json = { version = "1", features = ["arbitrary_precision", "preserve_order"] }
serde_yaml = "0.9"
anyhow = "1"
thiserror = "1"
clap = "4"
log = "0.4"
env_logger = "*"
