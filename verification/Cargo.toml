[package]
name = "yarn-why"
version = "1.0.0"
edition = "2021"
publish = false

[dependencies]
anyhow = "=1.0.104"
atty = "=0.2.14"
fxhash = "=0.2.1"
pico-args = "=0.5.0"
semver = "=1.0.28"
serde = { version = "=1.0.229", features = ["derive"] }
serde_json = "=1.0.154"
yarn-lock-parser = "=0.7.0"
