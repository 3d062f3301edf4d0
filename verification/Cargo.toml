[package]
name = "angrr"
version = "0.1.0"
edition = "2021"
publish = false

[dependencies]
anyhow = "1"
clap = { version = "4", features = ["derive"] }
clap_complete = "4"
clap_mangen = "*"
dialoguer = "*"
figment = { version = "*", features = ["toml", "env"] }
humantime = "2"
humantime-serde = "1"
ignore = "*"
log = "*"
nix = { version = "*", features = ["fs"] }
pretty_env_logger = "*"
regex = "1"
serde = { version = "1", features = ["derive"] }
serde_json = "1"
serde_regex = "1"
toml = "*"
uzers = "*"
xshell = "*"
