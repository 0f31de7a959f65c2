[package]
name = "varconv"
version = "0.1.0"
edition = "2021"
publish = false

[dependencies]
clap = { version = "=4.6.7", features = ["derive"] }
clap_complete = "=4.6.11"
linked-hash-map = "=0.5.6"
plist = "=1.10.3"
serde = "=1.0.229"
serde-pickle = "=1.2.0"
serde_json = "=1.0.154"
serde_yaml_ng = "=0.10.0"
toml = { version = "=1.1.8", features = ["preserve_order"] }

[dev-dependencies]
serde_test = "1"
