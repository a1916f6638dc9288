[package]
name = "set_simulator"
version = "0.1.0"
edition = "2021"
publish = false

[dependencies]
rand = "*"
structopt = "*"
env_logger = "*"
chrono = "*"
log = "*"
rayon = "*"
