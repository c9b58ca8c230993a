[package]
name = "fritz"
version = "0.1.0"
edition = "2021"
publish = false

[dependencies]
rnix = "=0.11.0"
rowan = "=0.15.19"
nix-editor = "=0.3.0"
duration-string = "=0.5.3"
platform-info = "=2.2.0"
serde = { version = "=1.0.229", features = ["derive"] }
serde_json = "=1.0.151"
rmp-serde = "=1.3.1"
clap = { version = "=4.6.7", features = ["derive"] }
figment = { version = "=0.10.19", features = ["toml", "env"] }
env_logger = "=0.11.11"
log = "=0.4.34"
colored = "=3.1.1"
dialoguer = { version = "=0.12.0", features = ["fuzzy-select"] }
indicatif = "=0.18.6"
