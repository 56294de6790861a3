[package]
name = "mdbook_numeq"
version = "0.1.0"
edition = "2021"
publish = false

[dependencies]
mdbook-preprocessor = "*"
clap = "=4.6.7"
semver = "=1.0.28"
serde_json = "=1.0.151"
log = "=0.4.34"
env_logger = "=0.11.11"
