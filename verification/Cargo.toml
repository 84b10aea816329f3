[package]
name = "language_evolution"
version = "0.2.0"
edition = "2021"
publish = false

[dependencies]
chrono = "0.4"
serde_json = "1"
structopt = "0.3"
log = "0.4"
env_logger = "*"
