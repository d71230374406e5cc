[package]
name = "compete_spec"
version = "0.1.0"
edition = "2021"
publish = false

[dependencies]
regex = "=1.13.1"
rand = { version = "=0.8.8", features = ["small_rng"] }
serde = { version = "=1.0.229", features = ["derive"] }
serde_yaml = "=0.8.26"
anyhow = "=1.0.104"
camino = "=1.2.6"
once_cell = "=1.21.4"
signal-hook = "=0.3.18"
heck = "=0.3.3"
toml_edit = "=0.19.15"
url = "=2.5.8"
serde_json = "=1.0.154"
human-size = "0.4"
