[package]
name = "mdinclude"
version = "0.1.0"
edition = "2021"
publish = false

[dependencies]
anyhow = "=1.0.104"
clap = "=4.6.7"
env_logger = "=0.11.11"
log = "=0.4.34"
mdbook = { version = "=0.4.52", default-features = false }
serde_json = "=1.0.151"
