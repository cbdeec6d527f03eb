[package]
name = "buildpack_changelog"
version = "0.1.0"
edition = "2021"
publish = false

[dependencies]
clap = { version = "=4.6.7", features = ["derive"] }
ignore = "=0.4.33"
libcnb-common = "=0.19.0"
libcnb-data = "=0.19.0"
libcnb-package = "=0.19.0"
serde_json = "=1.0.154"
thiserror = "=1.0.69"
toml = "=0.8.23"
